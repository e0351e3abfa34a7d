use wordle_solver::simple::SimpleSolver;
use wordle_solver::{Hint, SimpleResolver, Spot};

#[test]
fn new() {
    let actual = SimpleResolver::new(vec!["hello", "early"]);
    assert_eq!(actual.dict_words, vec!["hello", "early"]);
    assert_eq!(actual.hints.len(), 0);
}

#[test]
fn add_hint() {
    let mut actual = SimpleResolver::new(vec!["hello", "early"]);
    actual.add_hint(&vec![Hint { letter: 'a', spot: Spot::Absent }]);
    assert_eq!(actual.hints, vec![Hint { letter: 'a', spot: Spot::Absent }]);
}

#[test]
fn remove_including_a() {
    let mut actual = SimpleResolver::new(vec!["hello", "early"]);
    actual.add_hint(&vec![Hint { letter: 'a', spot: Spot::Absent }]);
    assert_eq!(actual.guess(), vec![String::from("hello")]);
}

#[test]
fn asset_fields() {
    let target = SimpleSolver::new(5, &vec!["hello".to_string(), "early".to_string()]);
    assert_eq!(target.width, 5);
    assert_eq!(target.dict_words, vec!["hello", "early"]);
}

#[test]
fn filter_word_only_length_is_5() {
    let target = SimpleSolver::new(
        5,
        &vec![
            "hello".to_string(),
            "dog".to_string(),
            "in".to_string(),
            "early".to_string(),
            "difference".to_string(),
        ],
    );
    assert_eq!(target.dict_words, vec!["hello", "early"]);
}

#[test]
fn shrink_words() {
    let actual = SimpleSolver::shrink_hints(&vec![
        Hint { letter: 'r', spot: Spot::Absent },
        Hint { letter: 'o', spot: Spot::At(1) },
        Hint { letter: 'b', spot: Spot::Absent },
        Hint { letter: 'o', spot: Spot::Absent },
        Hint { letter: 't', spot: Spot::At(4) },
    ]);
    assert_eq!(
        actual,
        vec![
            Hint { letter: 'r', spot: Spot::Absent },
            Hint { letter: 'o', spot: Spot::At(1) },
            Hint { letter: 'b', spot: Spot::Absent },
            Hint { letter: 't', spot: Spot::At(4) },
        ]
    )
}

fn preset_words() -> Vec<String> {
    vec!["hello".to_string(), "early".to_string(), "asset".to_string()]
}

#[test]
fn remove_word() {
    let mut target = SimpleSolver::new(5, &preset_words());
    target.add_hint("hello", &vec![]);
    assert_eq!(target.suggest(), &vec![String::from("asset"), String::from("early")]);
}

#[test]
fn a() {
    let mut target = SimpleSolver::new(5, &preset_words());
    target.add_hint("dummy", &vec![Hint { letter: 'a', spot: Spot::Absent }]);
    assert_eq!(target.suggest(), &vec![String::from("hello")]);
}

#[test]
fn l() {
    let mut target = SimpleSolver::new(5, &preset_words());
    target.add_hint("dummy", &vec![Hint { letter: 'l', spot: Spot::Absent }]);
    assert_eq!(target.suggest(), &vec![String::from("asset")]);
}

#[test]
fn none_but_include() {
    let mut actual = SimpleSolver::new(5, &vec!["early".to_string()]);
    actual.add_hint(
        "robot",
        &vec![
            Hint { letter: 's', spot: Spot::Absent },
            Hint { letter: 'k', spot: Spot::Absent },
            Hint { letter: 'i', spot: Spot::Absent },
            Hint { letter: 'l', spot: Spot::At(3) },
            Hint { letter: 'l', spot: Spot::Absent },
        ],
    );
    assert_eq!(actual.suggest(), &vec![String::from("early")]);
}

#[test]
fn l_2() {
    let mut target = SimpleSolver::new(5, &preset_words());
    target.add_hint("dummy", &vec![Hint { letter: 'l', spot: Spot::InWithout(2) }]);
    assert_eq!(target.suggest(), &vec![String::from("early")]);
}

#[test]
fn e_0() {
    let mut target = SimpleSolver::new(5, &preset_words());
    target.add_hint("dummy", &vec![Hint { letter: 'e', spot: Spot::InWithout(0) }]);
    assert_eq!(target.suggest(), &vec![String::from("hello"), String::from("asset")]);
}

#[test]
fn t_4() {
    let mut target = SimpleSolver::new(5, &preset_words());
    target.add_hint("dummy", &vec![Hint { letter: 't', spot: Spot::At(4) }]);
    assert_eq!(target.suggest(), &vec![String::from("asset")]);
}

#[test]
fn multiple_1() {
    let mut target = SimpleSolver::new(
        5,
        &vec![
            "hello".to_string(),
            "early".to_string(),
            "asset".to_string(),
            "bound".to_string(),
            "heard".to_string(),
            "spice".to_string(),
        ],
    );
    target.add_hint(
        "bound",
        &vec![
            Hint::new('b', Spot::Absent),
            Hint::new('o', Spot::Absent),
            Hint::new('u', Spot::Absent),
            Hint::new('n', Spot::Absent),
            Hint::new('d', Spot::Absent),
        ],
    );
    assert_eq!(
        target.suggest(),
        &vec![String::from("early"), String::from("asset"), String::from("spice")]
    );
    target.add_hint(
        "spice",
        &vec![
            Hint::new('s', Spot::InWithout(0)),
            Hint::new('p', Spot::Absent),
            Hint::new('i', Spot::Absent),
            Hint::new('c', Spot::Absent),
            Hint::new('e', Spot::InWithout(4)),
        ],
    );
    assert_eq!(target.suggest(), &vec![String::from("asset")]);
}

#[test]
fn hint_new_fields() {
    let hint = Hint::new('q', Spot::InWithout(3));
    assert_eq!(hint.letter, 'q');
    assert_eq!(hint.spot, Spot::InWithout(3));
}

#[test]
fn empty_pool() {
    let mut target = SimpleSolver::new(5, &vec![]);
    assert_eq!(target.remained_words_length(), 0);
    target.add_hint("dummy", &vec![Hint::new('a', Spot::Absent)]);
    assert_eq!(target.suggest(), &Vec::<String>::new());
}

#[test]
fn wrong_length_guess_keeps_pool() {
    let mut target = SimpleSolver::new(5, &preset_words());
    target.add_hint("abcdef", &vec![]);
    assert_eq!(
        target.suggest(),
        &vec![String::from("hello"), String::from("early"), String::from("asset")]
    );
}

#[test]
fn remained_words_length_counts_pool() {
    let mut target = SimpleSolver::new(5, &preset_words());
    assert_eq!(target.remained_words_length(), 3);
    target.add_hint("dummy", &vec![Hint::new('a', Spot::Absent)]);
    assert_eq!(target.remained_words_length(), 1);
}

#[test]
fn reapply_hints_reaches_fixed_point() {
    let hints = vec![
        Hint::new('a', Spot::Absent),
        Hint::new('l', Spot::InWithout(0)),
    ];
    let mut target = SimpleSolver::new(
        5,
        &vec!["hello".to_string(), "early".to_string(), "llama".to_string()],
    );
    target.add_hint("dummy", &hints);
    let narrowed = target.suggest().clone();
    target.add_hint("dummy", &hints);
    assert_eq!(target.suggest(), &narrowed);
}

#[test]
fn remaining_count_never_grows() {
    let mut target = SimpleSolver::new(
        5,
        &vec![
            "hello".to_string(),
            "early".to_string(),
            "asset".to_string(),
            "bound".to_string(),
        ],
    );
    let mut last = target.remained_words_length();
    let batches = vec![
        ("bound", vec![Hint::new('d', Spot::Absent)]),
        ("dummy", vec![Hint::new('e', Spot::InWithout(1))]),
        ("early", vec![]),
        ("dummy", vec![Hint::new('t', Spot::At(4))]),
    ];
    for (word, hints) in batches {
        target.add_hint(word, &hints);
        let now = target.remained_words_length();
        assert!(now <= last);
        last = now;
    }
}

#[test]
fn shrink_keeps_in_without_alongside_at() {
    let actual = SimpleSolver::shrink_hints(&vec![
        Hint { letter: 'o', spot: Spot::InWithout(2) },
        Hint { letter: 'o', spot: Spot::At(1) },
    ]);
    assert_eq!(
        actual,
        vec![
            Hint { letter: 'o', spot: Spot::InWithout(2) },
            Hint { letter: 'o', spot: Spot::At(1) },
        ]
    );
}

#[test]
fn in_without_requires_presence() {
    let mut target = SimpleSolver::new(5, &vec!["bound".to_string(), "hello".to_string()]);
    target.add_hint("dummy", &vec![Hint::new('e', Spot::InWithout(0))]);
    assert_eq!(target.suggest(), &vec![String::from("hello")]);
}

#[test]
fn guess_without_hints_keeps_dictionary() {
    let resolver = SimpleResolver::new(vec!["hello", "early"]);
    assert_eq!(resolver.guess(), vec![String::from("hello"), String::from("early")]);
}

#[test]
fn guess_ignores_positional_hints() {
    let mut resolver = SimpleResolver::new(vec!["hello", "early"]);
    resolver.add_hint(&vec![Hint::new('h', Spot::At(0)), Hint::new('y', Spot::InWithout(0))]);
    assert_eq!(resolver.guess(), vec![String::from("hello"), String::from("early")]);
}
