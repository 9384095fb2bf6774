use tipe_project::datastructures::skip_list::{Cursor, Interval, IntervalSkipLists, Side, SkipListAccess};

type Span = (i64, i64);

fn span(lo: i64, hi: i64) -> Span {
    (lo, hi)
}

fn contents(list: &IntervalSkipLists<Span>, access: &SkipListAccess) -> Vec<(i64, i64)> {
    let mut c = list.cursor_left(access);
    let mut out = Vec::new();
    while !c.is_full_right() {
        c.move_right(list);
        let s = c.get_interval(list).unwrap();
        out.push(*s);
        c.move_right(list);
    }
    out
}

fn loaded() -> (IntervalSkipLists<Span>, SkipListAccess) {
    let mut list = IntervalSkipLists::new();
    let access = list.bulk_load(vec![span(0, 1), span(2, 3), span(5, 8)]);
    (list, access)
}

#[test]
fn skip_list_bulk_load_keeps_order() {
    let (list, access) = loaded();
    assert_eq!(contents(&list, &access), vec![(0, 1), (2, 3), (5, 8)]);
}

#[test]
fn skip_list_empty_list() {
    let mut list: IntervalSkipLists<Span> = IntervalSkipLists::new();
    let access = list.bulk_load(Vec::new());
    assert_eq!(contents(&list, &access), Vec::<(i64, i64)>::new());
    let c = list.cursor(&access, 3);
    assert!(c.get_interval(&list).is_none());
    assert!(c.is_full_left());
    assert!(c.is_full_right());
    let empty = SkipListAccess::new();
    assert_eq!(contents(&list, &empty), Vec::<(i64, i64)>::new());
}

#[test]
fn skip_list_cursor_on_interval() {
    let (list, access) = loaded();
    let c = list.cursor(&access, 6);
    assert_eq!(c.get_interval(&list), Some(&span(5, 8)));
    let c = list.cursor(&access, 0);
    assert_eq!(c.get_interval(&list), Some(&span(0, 1)));
}

#[test]
fn skip_list_cursor_between_intervals() {
    let (list, access) = loaded();
    let mut c = list.cursor(&access, 4);
    assert!(c.get_interval(&list).is_none());
    assert!(!c.is_full_left());
    assert!(!c.is_full_right());
    c.move_right(&list);
    assert_eq!(c.get_interval(&list), Some(&span(5, 8)));
    let mut c = list.cursor(&access, 4);
    c.move_left(&list);
    assert_eq!(c.get_interval(&list), Some(&span(2, 3)));
}

#[test]
fn skip_list_cursor_past_the_ends() {
    let (list, access) = loaded();
    let c = list.cursor(&access, 100);
    assert!(c.is_full_right());
    assert!(c.get_interval(&list).is_none());
    let c = list.cursor(&access, -5);
    assert!(c.is_full_left());
    let c = list.cursor_left(&access);
    assert!(c.is_full_left());
    assert!(!c.is_full_right());
}

#[test]
fn skip_list_remove_interval() {
    let (mut list, mut access) = loaded();
    let mut c = list.cursor(&access, 2);
    c.remove_interval(&mut list, &mut access);
    assert!(c.get_interval(&list).is_none());
    assert_eq!(contents(&list, &access), vec![(0, 1), (5, 8)]);
    let mut c = list.cursor(&access, 0);
    c.remove_interval(&mut list, &mut access);
    assert_eq!(contents(&list, &access), vec![(5, 8)]);
    let mut c = list.cursor(&access, 7);
    c.remove_interval(&mut list, &mut access);
    assert_eq!(contents(&list, &access), Vec::<(i64, i64)>::new());
}

#[test]
fn skip_list_push_interval() {
    let (mut list, mut access) = loaded();
    let mut c = list.cursor(&access, 4);
    c.push_interval(&mut list, &mut access, span(4, 4));
    assert_eq!(c.get_interval(&list), Some(&span(4, 4)));
    assert_eq!(contents(&list, &access), vec![(0, 1), (2, 3), (4, 4), (5, 8)]);
    let mut c = list.cursor_left(&access);
    c.push_interval(&mut list, &mut access, span(-3, -1));
    assert_eq!(contents(&list, &access), vec![(-3, -1), (0, 1), (2, 3), (4, 4), (5, 8)]);
}

#[test]
fn skip_list_push_reuses_freed_slot() {
    let (mut list, mut access) = loaded();
    let mut c = list.cursor(&access, 3);
    c.remove_interval(&mut list, &mut access);
    c.push_interval(&mut list, &mut access, span(2, 4));
    assert_eq!(contents(&list, &access), vec![(0, 1), (2, 4), (5, 8)]);
}

#[test]
fn skip_list_get_interval_mut() {
    let (mut list, access) = loaded();
    let c = list.cursor(&access, 2);
    if let Some(s) = c.get_interval_mut(&mut list) {
        s.1 = 4;
    }
    assert_eq!(contents(&list, &access), vec![(0, 1), (2, 4), (5, 8)]);
    let c = list.cursor(&access, 9);
    assert!(c.get_interval_mut(&mut list).is_none());
}

#[test]
fn skip_list_split_then_concat() {
    let (mut list, mut access) = loaded();
    let mut c: Cursor = list.cursor(&access, 4);
    let rest = c.split_list(&mut list, &mut access);
    assert_eq!(contents(&list, &access), vec![(0, 1), (2, 3)]);
    assert_eq!(contents(&list, &rest), vec![(5, 8)]);
    let mut end = list.cursor(&access, 100);
    assert!(end.is_full_right());
    end.concat_list(&mut list, &mut access, rest);
    assert_eq!(contents(&list, &access), vec![(0, 1), (2, 3), (5, 8)]);
}

#[test]
fn skip_list_split_at_the_start() {
    let (mut list, mut access) = loaded();
    let mut c = list.cursor_left(&access);
    let rest = c.split_list(&mut list, &mut access);
    assert_eq!(contents(&list, &access), Vec::<(i64, i64)>::new());
    assert_eq!(contents(&list, &rest), vec![(0, 1), (2, 3), (5, 8)]);
}

#[test]
fn skip_list_two_lists_in_one_arena() {
    let mut list = IntervalSkipLists::new();
    let a = list.bulk_load(vec![span(0, 0), span(1, 1)]);
    let b = list.bulk_load(vec![span(10, 10)]);
    assert_eq!(contents(&list, &a), vec![(0, 0), (1, 1)]);
    assert_eq!(contents(&list, &b), vec![(10, 10)]);
}

#[test]
fn integer_range_compares_values() {
    assert_eq!((2i64, 5i64).cmp_value(&1), Side::Less);
    assert_eq!((2i64, 5i64).cmp_value(&2), Side::Equal);
    assert_eq!((2i64, 5i64).cmp_value(&5), Side::Equal);
    assert_eq!((2i64, 5i64).cmp_value(&6), Side::Greater);
}

#[test]
fn skip_list_push_then_remove_restores() {
    let (mut list, mut access) = loaded();
    let mut c = list.cursor(&access, 4);
    c.push_interval(&mut list, &mut access, span(4, 4));
    c.remove_interval(&mut list, &mut access);
    assert_eq!(contents(&list, &access), vec![(0, 1), (2, 3), (5, 8)]);
}

#[test]
fn skip_list_cursor_passes_every_interval_before_the_value() {
    let mut list = IntervalSkipLists::new();
    let access = list.bulk_load(vec![span(0, 1), span(2, 3), span(4, 9), span(5, 6), span(10, 11)]);
    let c = list.cursor(&access, 5);
    assert_eq!(c.get_interval(&list), Some(&span(4, 9)));
    let mut c = list.cursor(&access, 12);
    assert!(c.is_full_right());
    c.move_left(&list);
    assert_eq!(c.get_interval(&list), Some(&span(10, 11)));
}

#[test]
fn skip_list_split_leaves_other_lists() {
    let mut list = IntervalSkipLists::new();
    let mut a = list.bulk_load(vec![span(0, 1), span(2, 3), span(5, 8)]);
    let b = list.bulk_load(vec![span(10, 11), span(12, 13)]);
    let mut c = list.cursor(&a, 4);
    let rest = c.split_list(&mut list, &mut a);
    assert_eq!(contents(&list, &a), vec![(0, 1), (2, 3)]);
    assert_eq!(contents(&list, &rest), vec![(5, 8)]);
    assert_eq!(contents(&list, &b), vec![(10, 11), (12, 13)]);
}
