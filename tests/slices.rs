use pyslice::{
    cut_fields, cut_line, join_tokens, parse, parse_slice, select, Args, Error, Index, Range,
};

fn strings(items: &[&str]) -> Vec<String> {
    items.iter().map(|s| s.to_string()).collect()
}

fn ranges(slices: &[&str]) -> Vec<Range> {
    parse(strings(slices)).expect("slices parse")
}

fn one(slice: &str) -> Range {
    parse_slice(slice).expect("slice parses").expect("slice is kept")
}

#[test]
fn scenario_forward_slice() {
    let out = cut_line("a b c d e", " ", &ranges(&["1:3"])).unwrap();
    assert_eq!(out, "b c ");
}

#[test]
fn scenario_reverse_everything() {
    let out = cut_line("a b c d e", " ", &ranges(&["::-1"])).unwrap();
    assert_eq!(out, "e d c b a ");
}

#[test]
fn scenario_last_field_with_comma() {
    let out = cut_line("a,b,c", ",", &ranges(&["-1:"])).unwrap();
    assert_eq!(out, "c ");
}

#[test]
fn scenario_degenerate_slice_dropped() {
    assert!(parse_slice("5:2").unwrap().is_none());
    assert!(ranges(&["5:2"]).is_empty());
    assert_eq!(cut_line("a b c d e f", " ", &ranges(&["5:2"])).unwrap(), "");
}

#[test]
fn scenario_zero_step_rejected() {
    match parse_slice("1:2:0") {
        Err(Error::ParseRangeError(e)) => assert_eq!(e.slice, "1:2:0"),
        other => panic!("unexpected {:?}", other),
    }
}

#[test]
fn scenario_end_past_fields() {
    match cut_line("a b c", " ", &ranges(&["0:10"])) {
        Err(Error::IndexOutOfBounds { range, fields }) => {
            assert_eq!(range, 0);
            assert_eq!(fields, 3);
        }
        other => panic!("unexpected {:?}", other),
    }
}

#[test]
fn decimal_start_reads_as_head_or_tail() {
    for i in [0usize, 1, 7, 42, 1000] {
        assert_eq!(Index::from_text(&i.to_string()).unwrap(), Index::Head(i));
        assert_eq!(one(&format!("{}:", i)).start, Index::Head(i));
    }
    for i in [1usize, 3, 250] {
        assert_eq!(Index::from_text(&format!("-{}", i)).unwrap(), Index::Tail(i));
        assert_eq!(one(&format!("-{}:", i)).start, Index::Tail(i));
    }
}

#[test]
fn rendered_slice_parses_back() {
    for slice in ["a:b:c", "1:10:2", ":-1", "-3:", "::-1", "2:-2:-3", "+:-:1"] {
        let parsed = match parse_slice(slice) {
            Ok(Some(r)) => r,
            _ => continue,
        };
        let text = parsed.to_slice();
        let again = one(&text);
        assert_eq!(again, parsed);
        let fields = strings(&["a", "b", "c", "d", "e", "f", "g", "h", "i", "j", "k"]);
        let first = select(&vec![parsed], &fields).unwrap();
        let second = select(&vec![again], &fields).unwrap();
        assert_eq!(first, second);
    }
    assert_eq!(one("1:10:2").to_slice(), "1:10:2");
    assert_eq!(one(":-1").to_slice(), "0:-1:1");
    assert_eq!(one("::-1").to_slice(), "0:-:-1");
}

#[test]
fn empty_interval_selects_nothing() {
    let fields = strings(&["a", "b", "c"]);
    for slice in ["2:1:1", "-1:-2", "3:", "2:-2", "-1:0"] {
        let rs: Vec<Range> = parse_slice(slice).unwrap().into_iter().collect();
        assert_eq!(select(&rs, &fields).unwrap(), Vec::<String>::new());
    }
    let far = Range { start: Index::Head(9), end: Index::Tail(0), step: 1, reversed: false };
    assert_eq!(select(&vec![far], &fields).unwrap(), Vec::<String>::new());
}

#[test]
fn reversed_range_mirrors_forward() {
    let fields = strings(&["a", "b", "c", "d", "e", "f", "g"]);
    for (start, end, step) in [
        (Index::Head(0), Index::Tail(0), 1),
        (Index::Head(1), Index::Tail(1), 2),
        (Index::Tail(6), Index::Head(7), 3),
    ] {
        let fwd = Range { start, end, step, reversed: false };
        let back = Range { start, end, step, reversed: true };
        let mut a = select(&vec![fwd], &fields).unwrap();
        let b = select(&vec![back], &fields).unwrap();
        a.reverse();
        assert_eq!(a, b);
    }
    assert_eq!(select(&ranges(&["1::-2"]), &fields).unwrap(), strings(&["f", "d", "b"]));
}

#[test]
fn select_twice_is_the_same() {
    let fields = strings(&["x", "y", "z", "w"]);
    let rs = ranges(&["::2", "-1:", "::-1"]);
    let first = select(&rs, &fields).unwrap();
    let second = select(&rs, &fields).unwrap();
    assert_eq!(first, second);
    assert_eq!(first, strings(&["x", "z", "w", "w", "z", "y", "x"]));
}

#[test]
fn empty_bounds_and_single_number() {
    let r = one(":");
    assert_eq!((r.start, r.end, r.step, r.is_reversed()), (Index::Head(0), Index::Tail(0), 1, false));
    let r = one("5");
    assert_eq!((r.start, r.end, r.step), (Index::Head(5), Index::Tail(0), 1));
    let r = one("1:3:");
    assert_eq!(r.step, 1);
    let r = one("::-9223372036854775808");
    assert_eq!(r.step, 9223372036854775808usize);
    assert!(r.is_reversed());
    let r = one("+:-");
    assert_eq!((r.start, r.end), (Index::Head(0), Index::Tail(0)));
}

#[test]
fn bad_number_is_parse_int_error() {
    for slice in ["a:2", "1:b", "1:2:x", "99999999999999999999:", "1 :2", "--1:"] {
        match parse_slice(slice) {
            Err(Error::ParseIntError { slice: s, .. }) => assert_eq!(s, slice),
            other => panic!("{}: unexpected {:?}", slice, other),
        }
    }
}

#[test]
fn too_many_colons_is_parse_range_error() {
    match parse_slice("1:2:3:4") {
        Err(Error::ParseRangeError(e)) => assert_eq!(e.slice, "1:2:3:4"),
        other => panic!("unexpected {:?}", other),
    }
}

#[test]
fn parse_stops_at_first_failure() {
    match parse(strings(&["1:2", "x", "1:2:0"])) {
        Err(Error::ParseIntError { slice, .. }) => assert_eq!(slice, "x"),
        other => panic!("unexpected {:?}", other),
    }
    let rs = ranges(&["0:1", "3:1", "-1:"]);
    assert_eq!(rs.len(), 2);
    assert_eq!(rs[1].start, Index::Tail(1));
}

#[test]
fn tail_past_front_is_out_of_bounds() {
    let fields = strings(&["a", "b"]);
    match select(&ranges(&["0:1", "-5:1"]), &fields) {
        Err(Error::IndexOutOfBounds { range, fields }) => assert_eq!((range, fields), (1, 2)),
        other => panic!("unexpected {:?}", other),
    }
    match select(&ranges(&["0:-5"]), &fields) {
        Err(Error::IndexOutOfBounds { range, fields }) => assert_eq!((range, fields), (0, 2)),
        other => panic!("unexpected {:?}", other),
    }
    match cut_line("a b", " ", &ranges(&["-3:-1"])) {
        Err(Error::IndexOutOfBounds { range, fields }) => assert_eq!((range, fields), (0, 2)),
        other => panic!("unexpected {:?}", other),
    }
    assert_eq!(select(&ranges(&["1:-2"]), &fields).unwrap(), Vec::<String>::new());
}

#[test]
fn step_past_end_within_bounds() {
    let fields = strings(&["a", "b", "c"]);
    assert_eq!(select(&ranges(&["0:4:5"]), &fields).unwrap(), strings(&["a"]));
    assert!(select(&ranges(&["0:10:5"]), &fields).is_err());
}

#[test]
fn several_ranges_concatenate() {
    let out = cut_line("a::b::c::d", "::", &ranges(&["0:1", "-1:", "1:3"])).unwrap();
    assert_eq!(out, "a d b c ");
    let fields = strings(&["p", "q"]);
    assert_eq!(cut_fields(&ranges(&["::-1", ":1"]), &fields).unwrap(), "q p p ");
}

#[test]
fn join_tokens_adds_trailing_spaces() {
    assert_eq!(join_tokens(&strings(&["a", "bc"])), "a bc ");
    assert_eq!(join_tokens(&Vec::new()), "");
}

#[test]
fn index_new_signs() {
    assert_eq!(Index::new(0), Index::Head(0));
    assert_eq!(Index::new(12), Index::Head(12));
    assert_eq!(Index::new(-4), Index::Tail(4));
    assert_eq!(Index::new(isize::MIN), Index::Tail(9223372036854775808usize));
}

#[test]
fn zero_step_ranges_compare_equal() {
    let a = Range { start: Index::Head(0), end: Index::Head(1), step: 0, reversed: false };
    let b = Range { start: Index::Tail(2), end: Index::Head(5), step: 0, reversed: true };
    assert_eq!(a, b);
    assert_ne!(one("1:3"), one("1:3:-1"));
}

#[test]
fn separator_defaults_to_space() {
    let mut args = Args { field_separation: None, input_file: None, verbose: 0, slice: Vec::new() };
    assert_eq!(args.separator(), " ");
    args.field_separation = Some(",".to_string());
    assert_eq!(args.separator(), ",");
}

#[test]
fn index_from_str_sentinels() {
    assert_eq!("+".parse::<Index>().unwrap(), Index::Head(0));
    assert_eq!("-".parse::<Index>().unwrap(), Index::Tail(0));
    assert_eq!("-2".parse::<Index>().unwrap(), Index::Tail(2));
    assert!(matches!("x".parse::<Index>(), Err(Error::ParseIntError { .. })));
}

#[test]
fn index_from_str_numbers() {
    assert_eq!("0".parse::<Index>().unwrap(), Index::Head(0));
    assert_eq!("7".parse::<Index>().unwrap(), Index::Head(7));
    assert_eq!("-3".parse::<Index>().unwrap(), Index::Tail(3));
    assert_eq!("-0".parse::<Index>().unwrap(), Index::Head(0));
    for bad in ["abc", "", "1.5", " 1"] {
        match bad.parse::<Index>() {
            Err(Error::ParseIntError { slice, .. }) => assert_eq!(slice, bad),
            other => panic!("{:?}: unexpected {:?}", bad, other),
        }
    }
}

#[test]
fn range_new_filters_and_signs() {
    assert!(Range::new(Index::Head(3), Index::Head(1), 1).is_none());
    assert!(Range::new(Index::Tail(1), Index::Tail(2), 1).is_none());
    assert!(Range::new(Index::Head(0), Index::Tail(0), 0).is_none());
    let f = Range::new(Index::Head(0), Index::Tail(0), 2).unwrap();
    let b = Range::new(Index::Head(0), Index::Tail(0), -2).unwrap();
    assert!(!f.is_reversed());
    assert!(b.is_reversed());
    assert_eq!(b.step, 2);
    let fields = strings(&["a", "b", "c", "d", "e"]);
    assert_eq!(select(&vec![f], &fields).unwrap(), strings(&["a", "c", "e"]));
    assert_eq!(select(&vec![b], &fields).unwrap(), strings(&["e", "c", "a"]));
}

#[test]
fn separator_edge_cases() {
    let all = ranges(&[":"]);
    assert_eq!(cut_line("aaa", "aa", &all).unwrap(), " a ");
    assert_eq!(cut_line("aab", "ab", &all).unwrap(), "a  ");
    assert_eq!(cut_line("ab", "", &all).unwrap(), " a b  ");
    assert_eq!(cut_line("", ",", &all).unwrap(), " ");
    assert_eq!(cut_line("x,,y", ",", &all).unwrap(), "x  y ");
}
