use gui_calc::bindings::Binding;
use gui_calc::calculator::{Calculator, Outcome};
use m_calc::{CalcErr, Oper, Token};

fn submit(calculator: &mut Calculator, text: &str) -> Outcome {
    calculator.set_input_text(text.to_string());
    calculator.submit()
}

fn lines(calculator: &Calculator) -> Vec<String> {
    calculator.assignment_lines().into_iter().map(|line| line.1).collect()
}

fn history(calculator: &Calculator) -> Vec<(usize, String)> {
    calculator.history_lines()
}

#[test]
fn a_new_session_is_empty() {
    let calculator = Calculator::new();
    assert_eq!(calculator.input_text(), "");
    assert_eq!(calculator.output_text(), "");
    assert!(calculator.history_lines().is_empty());
    assert!(calculator.assignment_lines().is_empty());
    assert!(calculator.assignments().is_empty());
}

#[test]
fn the_input_line_is_kept() {
    let mut calculator = Calculator::new();
    calculator.set_input_text("1 + 2".to_string());
    assert_eq!(calculator.input_text(), "1 + 2");
    assert_eq!(calculator.submit(), Outcome::Evaluated);
    assert_eq!(calculator.input_text(), "1 + 2");
}

#[test]
fn a_sum_is_evaluated() {
    let mut calculator = Calculator::new();
    assert_eq!(submit(&mut calculator, "1+2"), Outcome::Evaluated);
    assert_eq!(calculator.output_text(), "3");
    assert_eq!(history(&calculator), vec![(0, "1+2".to_string())]);
    assert!(calculator.assignment_lines().is_empty());
}

#[test]
fn operators_bind_in_their_order() {
    let mut calculator = Calculator::new();
    assert_eq!(submit(&mut calculator, "2*3^(4-2)+14%3"), Outcome::Evaluated);
    assert_eq!(calculator.output_text(), "20");
}

#[test]
fn the_history_shows_the_tokens_not_the_input() {
    let mut calculator = Calculator::new();
    assert_eq!(submit(&mut calculator, " 2 *  3.50 "), Outcome::Evaluated);
    assert_eq!(calculator.output_text(), "7");
    assert_eq!(history(&calculator), vec![(0, "2*3.5".to_string())]);
}

#[test]
fn an_assignment_binds_and_is_used() {
    let mut calculator = Calculator::new();
    assert_eq!(submit(&mut calculator, "a=10;5+a"), Outcome::Evaluated);
    assert_eq!(calculator.output_text(), "15");
    assert_eq!(
        calculator.assignment_lines(),
        vec![("a".to_string(), "a = 10".to_string())]
    );
    assert_eq!(history(&calculator), vec![(0, "a=10;5+a".to_string())]);
}

#[test]
fn an_assignment_alone_shows_nothing() {
    let mut calculator = Calculator::new();
    assert_eq!(submit(&mut calculator, "1+1"), Outcome::Evaluated);
    assert_eq!(calculator.output_text(), "2");
    assert_eq!(submit(&mut calculator, "x = 2 * 4"), Outcome::Evaluated);
    assert_eq!(calculator.output_text(), "");
    assert_eq!(lines(&calculator), vec!["x = 8".to_string()]);
}

#[test]
fn a_value_with_a_name_is_stored_as_it_stands() {
    let mut calculator = Calculator::new();
    assert_eq!(submit(&mut calculator, "a=10"), Outcome::Evaluated);
    assert_eq!(submit(&mut calculator, "b=a+1"), Outcome::Evaluated);
    assert_eq!(lines(&calculator), vec!["a = 10".to_string(), "b = a+1".to_string()]);
    assert_eq!(submit(&mut calculator, "b*2"), Outcome::Evaluated);
    assert_eq!(calculator.output_text(), "22");
    assert_eq!(submit(&mut calculator, "a=1"), Outcome::Evaluated);
    assert_eq!(submit(&mut calculator, "b*2"), Outcome::Evaluated);
    assert_eq!(calculator.output_text(), "4");
}

#[test]
fn an_unbound_name_comes_back_as_it_is() {
    let mut calculator = Calculator::new();
    assert_eq!(submit(&mut calculator, "x"), Outcome::Evaluated);
    assert_eq!(calculator.output_text(), "x");
}

#[test]
fn a_function_is_evaluated() {
    let mut calculator = Calculator::new();
    assert_eq!(submit(&mut calculator, "\\sqrt(16)+1"), Outcome::Evaluated);
    assert_eq!(calculator.output_text(), "5");
    assert_eq!(history(&calculator), vec![(0, "\\sqrt(16)+1".to_string())]);
}

#[test]
fn the_message_of_the_tokenizer_is_shown() {
    let mut calculator = Calculator::new();
    assert_eq!(submit(&mut calculator, "a=1"), Outcome::Evaluated);
    assert_eq!(submit(&mut calculator, "1+2"), Outcome::Evaluated);
    assert_eq!(submit(&mut calculator, "1 $ 2"), Outcome::Rejected);
    assert_eq!(calculator.output_text(), "invalid character for an `Oper`: `$`");
    assert_eq!(
        history(&calculator),
        vec![(1, "1+2".to_string()), (0, "a=1".to_string())]
    );
    assert_eq!(lines(&calculator), vec!["a = 1".to_string()]);
    assert_eq!(submit(&mut calculator, "1.2.3"), Outcome::Rejected);
    assert_eq!(calculator.output_text(), "invalid float literal");
}

#[test]
fn the_message_of_the_evaluator_is_shown() {
    let mut calculator = Calculator::new();
    assert_eq!(submit(&mut calculator, "1+"), Outcome::Failed);
    assert_eq!(calculator.output_text(), "2 `Op` in a row at 1");
    assert_eq!(history(&calculator), vec![(0, "1+".to_string())]);
    assert_eq!(submit(&mut calculator, "x+1"), Outcome::Failed);
    assert_eq!(calculator.output_text(), "first token must be a `Token::Num`");
    assert_eq!(submit(&mut calculator, "\\sqrt()"), Outcome::Failed);
    assert_eq!(calculator.output_text(), "unexpected end of `Vec`");
    assert_eq!(submit(&mut calculator, "1)"), Outcome::Failed);
    assert_eq!(
        calculator.output_text(),
        "cannot call `convert_implicit_mul` on a `Vec<Token>` that contains parentheses"
    );
    assert_eq!(submit(&mut calculator, ""), Outcome::Failed);
    assert_eq!(calculator.output_text(), "length cannot be `0`");
    assert_eq!(calculator.history_lines().len(), 5);
}

#[test]
fn an_assignment_before_an_error_stays() {
    let mut calculator = Calculator::new();
    assert_eq!(submit(&mut calculator, "a=3;1+"), Outcome::Failed);
    assert_eq!(calculator.output_text(), "2 `Op` in a row at 1");
    assert_eq!(lines(&calculator), vec!["a = 3".to_string()]);
}

fn declined(calculator: &mut Calculator, text: &str) {
    let output = calculator.output_text().clone();
    let history = calculator.history_lines();
    let lines = calculator.assignment_lines();
    assert_eq!(submit(calculator, text), Outcome::Declined, "{}", text);
    assert_eq!(calculator.input_text(), text);
    assert_eq!(*calculator.output_text(), output);
    assert_eq!(calculator.history_lines(), history);
    assert_eq!(calculator.assignment_lines(), lines);
}

#[test]
fn what_the_guard_does_not_admit_is_declined() {
    let mut calculator = Calculator::new();
    assert_eq!(submit(&mut calculator, "a=2;a+1"), Outcome::Evaluated);
    assert_eq!(calculator.output_text(), "3");
    declined(&mut calculator, "(1");
    declined(&mut calculator, "-1");
    declined(&mut calculator, "2*(-1)");
    declined(&mut calculator, "b=-1");
    declined(&mut calculator, "\\sqrt((1+2)*3)");
    declined(&mut calculator, "\\sqrt(a)");
    declined(&mut calculator, "\\sqrt a");
    declined(&mut calculator, "b=(1;b");
}

#[test]
fn text_that_is_not_ascii_is_declined() {
    let mut calculator = Calculator::new();
    declined(&mut calculator, "1+é");
    declined(&mut calculator, "2\u{a0}");
}

#[test]
fn a_name_that_refers_to_itself_is_stored_and_then_declined() {
    let mut calculator = Calculator::new();
    assert_eq!(submit(&mut calculator, "a=a+1"), Outcome::Evaluated);
    assert_eq!(lines(&calculator), vec!["a = a+1".to_string()]);
    declined(&mut calculator, "a");
    declined(&mut calculator, "2*a");
    assert_eq!(submit(&mut calculator, "2*b"), Outcome::Failed);
    assert_eq!(calculator.output_text(), "last token must be a `Token::Num`");
    assert_eq!(submit(&mut calculator, "b=a;c=b"), Outcome::Evaluated);
    declined(&mut calculator, "c");
    assert!(calculator.remove_assignment("a"));
    assert_eq!(submit(&mut calculator, "c"), Outcome::Evaluated);
    assert_eq!(calculator.output_text(), "a");
}

#[test]
fn a_value_left_open_is_stored_and_then_declined() {
    let mut calculator = Calculator::new();
    assert_eq!(submit(&mut calculator, "a=(x"), Outcome::Evaluated);
    assert_eq!(lines(&calculator), vec!["a = (x".to_string()]);
    declined(&mut calculator, "a");
    assert_eq!(submit(&mut calculator, "1+1"), Outcome::Evaluated);
    assert_eq!(calculator.output_text(), "2");
}

#[test]
fn the_history_is_shown_newest_first() {
    let mut calculator = Calculator::new();
    for text in ["1", "2+2", "x=3"] {
        assert_eq!(submit(&mut calculator, text), Outcome::Evaluated);
    }
    assert_eq!(submit(&mut calculator, "1+"), Outcome::Failed);
    assert_eq!(
        history(&calculator),
        vec![
            (3, "1+".to_string()),
            (2, "x=3".to_string()),
            (1, "2+2".to_string()),
            (0, "1".to_string()),
        ]
    );
}

#[test]
fn an_expression_leaves_the_history_by_its_place() {
    let mut calculator = Calculator::new();
    for text in ["1", "2", "3"] {
        assert_eq!(submit(&mut calculator, text), Outcome::Evaluated);
    }
    assert!(!calculator.remove_history(3));
    assert_eq!(calculator.history_lines().len(), 3);
    assert!(calculator.remove_history(1));
    assert_eq!(history(&calculator), vec![(1, "3".to_string()), (0, "1".to_string())]);
    assert!(calculator.remove_history(0));
    assert_eq!(history(&calculator), vec![(0, "3".to_string())]);
    assert_eq!(calculator.output_text(), "3");
}

#[test]
fn clearing_the_history_keeps_the_rest() {
    let mut calculator = Calculator::new();
    assert_eq!(submit(&mut calculator, "a=1;a+1"), Outcome::Evaluated);
    calculator.clear_history();
    assert!(calculator.history_lines().is_empty());
    assert_eq!(calculator.output_text(), "2");
    assert_eq!(calculator.input_text(), "a=1;a+1");
    assert_eq!(lines(&calculator), vec!["a = 1".to_string()]);
    assert!(!calculator.remove_history(0));
}

#[test]
fn assignments_are_shown_in_the_order_of_their_names() {
    let mut calculator = Calculator::new();
    for text in ["b=1", "ab=2", "a=3", "B=4", "c=b", "aa=5"] {
        assert_eq!(submit(&mut calculator, text), Outcome::Evaluated);
    }
    assert_eq!(
        calculator.assignment_lines(),
        vec![
            ("B".to_string(), "B = 4".to_string()),
            ("a".to_string(), "a = 3".to_string()),
            ("aa".to_string(), "aa = 5".to_string()),
            ("ab".to_string(), "ab = 2".to_string()),
            ("b".to_string(), "b = 1".to_string()),
            ("c".to_string(), "c = b".to_string()),
        ]
    );
    let names: Vec<String> = calculator.assignments().iter().map(|b| b.name.clone()).collect();
    assert_eq!(names, vec!["B", "a", "aa", "ab", "b", "c"]);
}

#[test]
fn a_second_assignment_replaces_the_first() {
    let mut calculator = Calculator::new();
    assert_eq!(submit(&mut calculator, "a=1;b=2"), Outcome::Evaluated);
    assert_eq!(submit(&mut calculator, "a=5"), Outcome::Evaluated);
    assert_eq!(lines(&calculator), vec!["a = 5".to_string(), "b = 2".to_string()]);
}

#[test]
fn an_assignment_leaves_by_its_name() {
    let mut calculator = Calculator::new();
    assert_eq!(submit(&mut calculator, "a=1;b=2;c=3"), Outcome::Evaluated);
    assert!(!calculator.remove_assignment("d"));
    assert!(!calculator.remove_assignment(""));
    assert_eq!(calculator.assignment_lines().len(), 3);
    assert!(calculator.remove_assignment("b"));
    assert_eq!(lines(&calculator), vec!["a = 1".to_string(), "c = 3".to_string()]);
    assert!(!calculator.remove_assignment("b"));
    assert_eq!(submit(&mut calculator, "b+a"), Outcome::Failed);
    assert_eq!(calculator.output_text(), "first token must be a `Token::Num`");
    assert_eq!(calculator.history_lines().len(), 2);
}

#[test]
fn clearing_the_assignments_keeps_the_rest() {
    let mut calculator = Calculator::new();
    assert_eq!(submit(&mut calculator, "a=1;b=2;a+b"), Outcome::Evaluated);
    calculator.clear_assignments();
    assert!(calculator.assignment_lines().is_empty());
    assert_eq!(calculator.output_text(), "3");
    assert_eq!(calculator.history_lines().len(), 1);
    assert_eq!(submit(&mut calculator, "a"), Outcome::Evaluated);
    assert_eq!(calculator.output_text(), "a");
}

#[test]
fn settling_records_a_result() {
    let mut calculator = Calculator::new();
    calculator.set_input_text("kept".to_string());
    let tokens = vec![Token::Num(1.5), Token::Op(Oper::Mul), Token::Id("k".to_string())];
    let bindings = vec![
        Binding { name: "z".to_string(), value: vec![Token::Num(1.0)] },
        Binding { name: "k".to_string(), value: vec![Token::Id("z".to_string()), Token::Op(Oper::Exp), Token::Num(2.0)] },
        Binding { name: "Z".to_string(), value: vec![] },
    ];
    calculator.settle(tokens, Ok(Token::Num(-0.25)), bindings);
    assert_eq!(calculator.input_text(), "kept");
    assert_eq!(calculator.output_text(), "-0.25");
    assert_eq!(history(&calculator), vec![(0, "1.5*k".to_string())]);
    assert_eq!(
        lines(&calculator),
        vec!["Z = ".to_string(), "k = z^2".to_string(), "z = 1".to_string()]
    );
}

#[test]
fn settling_records_an_error() {
    let mut calculator = Calculator::new();
    assert_eq!(submit(&mut calculator, "a=1"), Outcome::Evaluated);
    calculator.settle(vec![Token::Empty], Err(CalcErr("no".to_string())), vec![]);
    assert_eq!(calculator.output_text(), "no");
    assert_eq!(history(&calculator), vec![(1, "".to_string()), (0, "a=1".to_string())]);
    assert!(calculator.assignment_lines().is_empty());
}

#[test]
fn evaluating_takes_tokens_as_they_are() {
    let mut calculator = Calculator::new();
    let tokens = vec![
        Token::Id("n".to_string()),
        Token::Op(Oper::Eql),
        Token::Num(4.0),
        Token::Op(Oper::LnBr),
        Token::Id("n".to_string()),
        Token::Op(Oper::Div),
        Token::Num(8.0),
    ];
    assert!(gui_calc::guard::check_evaluable(&tokens, calculator.assignments()));
    assert!(calculator.evaluate(tokens));
    assert_eq!(calculator.output_text(), "0.5");
    assert_eq!(history(&calculator), vec![(0, "n=4;n/8".to_string())]);
    assert_eq!(lines(&calculator), vec!["n = 4".to_string()]);
}

#[test]
fn evaluating_tells_an_error_from_a_result() {
    let mut calculator = Calculator::new();
    let tokens = vec![
        Token::Id("n".to_string()),
        Token::Op(Oper::Eql),
        Token::Id("m".to_string()),
        Token::Op(Oper::LnBr),
        Token::Num(1.0),
        Token::Op(Oper::Add),
    ];
    assert!(gui_calc::guard::check_evaluable(&tokens, calculator.assignments()));
    assert!(!calculator.evaluate(tokens));
    assert_eq!(calculator.output_text(), "2 `Op` in a row at 1");
    assert_eq!(lines(&calculator), vec!["n = m".to_string()]);
    assert_eq!(history(&calculator), vec![(0, "n=m;1+".to_string())]);
}

#[test]
fn an_error_in_an_assignment_stops_the_later_ones() {
    let mut calculator = Calculator::new();
    assert_eq!(submit(&mut calculator, "a=1;b=2+;c=3"), Outcome::Failed);
    assert_eq!(calculator.output_text(), "2 `Op` in a row at 1");
    assert_eq!(lines(&calculator), vec!["a = 1".to_string()]);
    assert_eq!(submit(&mut calculator, "a=x;1=2;c=3"), Outcome::Failed);
    assert_eq!(
        calculator.output_text(),
        "first token of assignment expression must be an `Id`"
    );
    assert_eq!(lines(&calculator), vec!["a = x".to_string()]);
}
