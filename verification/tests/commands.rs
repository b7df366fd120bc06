use sysprogs::commands::{
    count, counter_options, first_lines, matching_lines, order_options, pair_args, sort_lines,
    start_plan, CounterOptions, Counts, PairArgs, StartStep,
};

fn strings(v: &[&str]) -> Vec<String> {
    v.iter().map(|s| s.to_string()).collect()
}

#[test]
fn counts_of_a_text() {
    let c = count(&"hello world\nsecond  line here\n\nlast".to_string());
    assert_eq!(c, Counts { words: 6, chars: 12 + 18 + 1 + 5, lines: 4 });
    assert_eq!(count(&String::new()), Counts { words: 0, chars: 0, lines: 0 });
    // bytes, not characters: 'é' takes two
    assert_eq!(count(&"é\r\n".to_string()), Counts { words: 1, chars: 3, lines: 1 });
}

#[test]
fn counter_flags() {
    let all = CounterOptions { words: true, lines: true, chars: true, first_file: 0 };
    assert_eq!(counter_options(&strings(&["a.txt", "b.txt"])), Some(all));
    assert_eq!(counter_options(&Vec::new()), Some(all));
    assert_eq!(
        counter_options(&strings(&["-w", "a.txt"])),
        Some(CounterOptions { words: true, lines: false, chars: false, first_file: 1 })
    );
    assert_eq!(
        counter_options(&strings(&["-lc", "a.txt"])),
        Some(CounterOptions { words: false, lines: true, chars: true, first_file: 1 })
    );
    assert_eq!(
        counter_options(&strings(&["-x", "a.txt"])),
        Some(CounterOptions { words: true, lines: true, chars: true, first_file: 1 })
    );
    assert_eq!(
        counter_options(&strings(&["-w-", "a.txt"])),
        Some(CounterOptions { words: true, lines: false, chars: false, first_file: 1 })
    );
    // no option can be read from these
    assert_eq!(counter_options(&strings(&["-", "a.txt"])), None);
    assert_eq!(counter_options(&strings(&["--", "a.txt"])), None);
    assert_eq!(counter_options(&strings(&["-xy", "a.txt"])), None);
}

#[test]
fn start_flags() {
    assert_eq!(start_plan(&strings(&["a.txt"])), vec![StartStep::File(10)]);
    assert_eq!(
        start_plan(&strings(&["-3", "a.txt", "b.txt"])),
        vec![StartStep::Count(3), StartStep::File(3), StartStep::File(3)]
    );
    // a later dash-number holds for the files after it
    assert_eq!(
        start_plan(&strings(&["a.txt", "-2", "b.txt"])),
        vec![StartStep::File(10), StartStep::Count(2), StartStep::File(2)]
    );
    assert_eq!(start_plan(&strings(&["--5-", "a.txt"])), vec![StartStep::Count(5), StartStep::File(5)]);
    // the run stops at an option without a number
    assert_eq!(start_plan(&strings(&["a.txt", "-x", "b.txt"])), vec![StartStep::File(10), StartStep::Fail]);
    assert_eq!(start_plan(&strings(&["-"])), vec![StartStep::Fail]);
    assert!(start_plan(&Vec::new()).is_empty());
}

#[test]
fn first_lines_of_a_text() {
    let text = "1\n2\n3\n4\n".to_string();
    assert_eq!(first_lines(&text, 2), strings(&["1", "2"]));
    assert_eq!(first_lines(&text, 10), strings(&["1", "2", "3", "4"]));
    assert_eq!(first_lines(&text, 0), Vec::<String>::new());
}

#[test]
fn sorting_lines() {
    let lines = strings(&["pear", "apple", "Zebra", "apple", "é", ""]);
    let mut expected = lines.clone();
    expected.sort();
    assert_eq!(sort_lines(lines.clone(), false), expected);
    expected.reverse();
    assert_eq!(sort_lines(lines, true), expected);
}

#[test]
fn order_flags() {
    assert_eq!(order_options(&strings(&["-r", "a"])), (true, 1));
    assert_eq!(order_options(&strings(&["a", "-r"])), (false, 0));
}

#[test]
fn lines_with_a_pattern() {
    let text = "one fish\ntwo fish\nred\nblue fish".to_string();
    assert_eq!(matching_lines(&text, &"fish".to_string()), strings(&["one fish", "two fish", "blue fish"]));
    assert_eq!(matching_lines(&text, &"cat".to_string()), Vec::<String>::new());
}

#[test]
fn two_path_programs() {
    assert_eq!(pair_args(1), PairArgs::NotEnough);
    assert_eq!(pair_args(3), PairArgs::Pair);
    assert_eq!(pair_args(2), PairArgs::Invalid);
    assert_eq!(pair_args(4), PairArgs::Invalid);
}
