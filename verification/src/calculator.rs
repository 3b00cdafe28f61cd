//! The calculator session: the input line, the output line, the history of
//! submitted expressions and the variable assignments.

use crate::bindings::{
    binds, distinct_names, lemma_same_bindings, lemma_sorted_distinct, position_of, sort_bindings,
    sorted_by_name, Binding,
};
use crate::engine::{calculate, legible, rendered, shown, tokenized, LONGEST};
use crate::guard::{assigned_in, check_evaluable, evaluable, kept};
use m_calc::{CalcErr, Token};
use vstd::prelude::*;
use vstd::string::StringExecFns;
use vstd::string::is_ascii_spec_bytes;

verus! {

/// A calculator session.
pub struct Calculator {
    context: Vec<Binding>,
    input_text: String,
    output_text: String,
    history: Vec<Vec<Token>>,
}

/// What a session holds.
pub struct State {
    /// The variable assignments, in the order of their names.
    pub context: Seq<Binding>,
    /// The input line.
    pub input: Seq<char>,
    /// The output line: the last result, or the last error message.
    pub output: Seq<char>,
    /// The submitted expressions, oldest first.
    pub history: Seq<Seq<Token>>,
}

/// How a submission ended.
#[derive(Clone, Copy, Debug, PartialEq, Eq, Structural)]
pub enum Outcome {
    /// The input could not be tokenized; the output line holds the message.
    Rejected,
    /// The input was tokenized, and the evaluator answered with an error; the
    /// output line holds its message.
    Failed,
    /// The input was tokenized and evaluated; the output line holds the
    /// result.
    Evaluated,
    /// The input was not handed on: the tokenizer cannot read it, or the
    /// guard does not admit its tokens. The session is as it was.
    Declined,
}

impl View for Calculator {
    type V = State;

    closed spec fn view(&self) -> State {
        State {
            context: self.context@,
            input: self.input_text@,
            output: self.output_text@,
            history: Seq::new(self.history@.len(), |i: int| self.history@[i]@),
        }
    }
}

/// What separates a name from its value in the line of an assignment.
pub open spec fn separator() -> Seq<char> {
    seq![' ', '=', ' ']
}

/// The line that shows an assignment.
pub open spec fn assignment_line(binding: Binding) -> Seq<char> {
    binding.name@ + separator() + rendered(binding.value@)
}

impl Calculator {
    /// The assignments are kept in the strict order of their names.
    #[verifier::type_invariant]
    spec fn ordered(&self) -> bool {
        sorted_by_name(self.context@)
    }

    /// A session with nothing in it.
    pub fn new() -> (calculator: Calculator)
        ensures
            calculator@.context == Seq::<Binding>::empty(),
            calculator@.input == Seq::<char>::empty(),
            calculator@.output == Seq::<char>::empty(),
            calculator@.history == Seq::<Seq<Token>>::empty(),
    {
        Calculator {
            context: Vec::new(),
            input_text: String::new(),
            output_text: String::new(),
            history: Vec::new(),
        }
    }

    /// The assignments: no two of a name, in the strict order of their names.
    pub fn assignments(&self) -> (bindings: &Vec<Binding>)
        ensures
            bindings@ == self@.context,
            sorted_by_name(bindings@),
            distinct_names(bindings@),
    {
        proof {
            use_type_invariant(self);
            lemma_sorted_distinct(self.context@);
        }
        &self.context
    }

    /// The input line.
    pub fn input_text(&self) -> (text: &String)
        ensures
            text@ == self@.input,
    {
        &self.input_text
    }

    /// Replaces the input line.
    pub fn set_input_text(&mut self, text: String)
        ensures
            final(self)@ == (State { input: text@, ..old(self)@ }),
    {
        proof {
            use_type_invariant(&*self);
        }
        self.input_text = text;
    }

    /// The output line.
    pub fn output_text(&self) -> (text: &String)
        ensures
            text@ == self@.output,
    {
        &self.output_text
    }

    /// Records that the tokenizer refused the input: its message becomes the
    /// output line.
    pub fn reject(&mut self, message: String)
        ensures
            final(self)@ == (State { output: message@, ..old(self)@ }),
    {
        proof {
            use_type_invariant(&*self);
        }
        self.output_text = message;
    }

    /// Records an evaluation: the tokens join the history, the output line
    /// shows the result or the message of the error, and the bindings become
    /// the assignments of the session.
    pub fn settle(&mut self, tokens: Vec<Token>, result: Result<Token, CalcErr>, bindings: Vec<Binding>)
        requires
            distinct_names(bindings@),
        ensures
            final(self)@.input == old(self)@.input,
            final(self)@.history == old(self)@.history.push(tokens@),
            final(self)@.output == match result {
                Ok(token) => shown(token),
                Err(error) => error.0@,
            },
            sorted_by_name(final(self)@.context),
            final(self)@.context.len() == bindings@.len(),
            forall|b: Binding| final(self)@.context.contains(b) <==> bindings@.contains(b),
    {
        proof {
            use_type_invariant(&*self);
        }
        let mut history: Vec<Vec<Token>> = Vec::new();
        std::mem::swap(&mut history, &mut self.history);
        history.push(tokens);
        self.history = history;
        assert(self@.history == old(self)@.history.push(tokens@));
        self.output_text = match result {
            Ok(token) => token.display(),
            Err(CalcErr(message)) => message,
        };
        self.context = sort_bindings(bindings);
    }

    /// Evaluates a token list that the guard admits, records what comes of
    /// it, and tells whether the evaluator gave a result (and not an error).
    /// The tokens join the history. The assignments are kept as [`kept`]
    /// says; where there is a result, they hold every assignment of the
    /// tokens, and the output line shows a token. Which token, which message
    /// and which tokens values came to is the evaluator's to say.
    pub fn evaluate(&mut self, tokens: Vec<Token>) -> (done: bool)
        requires
            evaluable(tokens@, old(self)@.context),
        ensures
            final(self)@.input == old(self)@.input,
            final(self)@.history == old(self)@.history.push(tokens@),
            sorted_by_name(final(self)@.context),
            kept(old(self)@.context, tokens@, final(self)@.context),
            done ==> assigned_in(tokens@, final(self)@.context),
            done ==> exists|token: Token| final(self)@.output == shown(token),
    {
        proof {
            use_type_invariant(&*self);
            lemma_sorted_distinct(self.context@);
        }
        let (result, bindings) = calculate(&tokens, &self.context);
        let done = result.is_ok();
        let ghost given = bindings@;
        self.settle(tokens, result, bindings);
        proof {
            lemma_same_bindings(self@.context, given);
        }
        done
    }

    /// Takes the input line through the tokenizer and, where the guard
    /// admits the tokens, through the evaluator.
    ///
    /// - Input that the tokenizer cannot read is declined, and so are tokens
    ///   that the guard does not admit: the session stays as it is.
    /// - Where the tokenizer refuses the input, its message becomes the
    ///   output line; history and assignments stay as they are.
    /// - Else the tokens are evaluated as [`Calculator::evaluate`] says, and
    ///   the evaluator gave a result or failed with an error.
    pub fn submit(&mut self) -> (outcome: Outcome)
        ensures
            final(self)@.input == old(self)@.input,
            sorted_by_name(final(self)@.context),
            match outcome {
                Outcome::Declined => {
                    &&& final(self)@ == old(self)@
                    &&& legible(old(self)@.input) ==> match tokenized(old(self)@.input) {
                        Ok(tokens) => !evaluable(tokens, old(self)@.context),
                        Err(_) => false,
                    }
                },
                Outcome::Rejected => {
                    &&& legible(old(self)@.input)
                    &&& tokenized(old(self)@.input) == Err::<Seq<Token>, Seq<char>>(
                        final(self)@.output,
                    )
                    &&& final(self)@.history == old(self)@.history
                    &&& final(self)@.context == old(self)@.context
                },
                Outcome::Failed | Outcome::Evaluated => {
                    let tokens = tokenized(old(self)@.input)->Ok_0;
                    &&& legible(old(self)@.input)
                    &&& tokenized(old(self)@.input) is Ok
                    &&& evaluable(tokens, old(self)@.context)
                    &&& final(self)@.history == old(self)@.history.push(tokens)
                    &&& kept(old(self)@.context, tokens, final(self)@.context)
                    &&& outcome == Outcome::Evaluated ==> {
                        &&& assigned_in(tokens, final(self)@.context)
                        &&& exists|token: Token| final(self)@.output == shown(token)
                    }
                },
            },
    {
        proof {
            use_type_invariant(&*self);
        }
        let text = self.input_text.as_str();
        proof {
            is_ascii_spec_bytes(text);
        }
        if !text.is_ascii() || text.as_bytes().len() > LONGEST {
            return Outcome::Declined;
        }
        match m_calc::tokenize(self.input_text.as_str()) {
            Ok(tokens) => {
                if check_evaluable(&tokens, &self.context) {
                    if self.evaluate(tokens) {
                        Outcome::Evaluated
                    } else {
                        Outcome::Failed
                    }
                } else {
                    Outcome::Declined
                }
            },
            Err(CalcErr(message)) => {
                self.reject(message);
                Outcome::Rejected
            },
        }
    }

    /// The history as it is shown, newest first: each expression with its
    /// place in the history and its text.
    pub fn history_lines(&self) -> (lines: Vec<(usize, String)>)
        ensures
            lines@.len() == self@.history.len(),
            forall|k: int|
                0 <= k < lines@.len() ==> {
                    &&& lines@[k].0 == self@.history.len() - 1 - k
                    &&& lines@[k].1@ == rendered(self@.history[self@.history.len() - 1 - k])
                },
    {
        let mut lines: Vec<(usize, String)> = Vec::new();
        let mut index: usize = self.history.len();
        while index > 0
            invariant
                index <= self.history@.len(),
                lines@.len() == self.history@.len() - index,
                forall|k: int|
                    0 <= k < lines@.len() ==> {
                        &&& lines@[k].0 == self.history@.len() - 1 - k
                        &&& lines@[k].1@ == rendered(self.history@[self.history@.len() - 1 - k]@)
                    },
            decreases index,
        {
            index = index - 1;
            let text = m_calc::display_expr(self.history[index].as_slice());
            lines.push((index, text));
        }
        lines
    }

    /// Empties the history.
    pub fn clear_history(&mut self)
        ensures
            final(self)@ == (State { history: Seq::empty(), ..old(self)@ }),
    {
        proof {
            use_type_invariant(&*self);
        }
        self.history = Vec::new();
        assert(self@.history == Seq::<Seq<Token>>::empty());
    }

    /// Takes the expression at a place out of the history; does nothing
    /// where the history has no such place.
    pub fn remove_history(&mut self, index: usize) -> (removed: bool)
        ensures
            removed == (index < old(self)@.history.len()),
            removed ==> final(self)@ == (State {
                history: old(self)@.history.remove(index as int),
                ..old(self)@
            }),
            !removed ==> final(self)@ == old(self)@,
    {
        proof {
            use_type_invariant(&*self);
        }
        if index >= self.history.len() {
            return false;
        }
        let mut history: Vec<Vec<Token>> = Vec::new();
        std::mem::swap(&mut history, &mut self.history);
        history.remove(index);
        self.history = history;
        assert(self@.history == old(self)@.history.remove(index as int));
        true
    }

    /// The assignments as they are shown, in the order of their names: each
    /// name with its line, `name = value`.
    pub fn assignment_lines(&self) -> (lines: Vec<(String, String)>)
        ensures
            sorted_by_name(self@.context),
            lines@.len() == self@.context.len(),
            forall|k: int|
                0 <= k < lines@.len() ==> {
                    &&& lines@[k].0@ == self@.context[k].name@
                    &&& lines@[k].1@ == assignment_line(self@.context[k])
                },
    {
        proof {
            use_type_invariant(self);
            reveal_strlit(" = ");
        }
        let mut lines: Vec<(String, String)> = Vec::new();
        let mut k: usize = 0;
        while k < self.context.len()
            invariant
                k <= self.context@.len(),
                lines@.len() == k,
                " = "@ == separator(),
                forall|j: int|
                    0 <= j < k ==> {
                        &&& lines@[j].0@ == self.context@[j].name@
                        &&& lines@[j].1@ == assignment_line(self.context@[j])
                    },
            decreases self.context@.len() - k,
        {
            let binding = &self.context[k];
            let text = m_calc::display_expr(binding.value.as_slice());
            let mut line = binding.name.clone();
            line.append(" = ");
            line.append(text.as_str());
            lines.push((binding.name.clone(), line));
            k = k + 1;
        }
        lines
    }

    /// Drops every assignment.
    pub fn clear_assignments(&mut self)
        ensures
            final(self)@ == (State { context: Seq::empty(), ..old(self)@ }),
    {
        proof {
            use_type_invariant(&*self);
        }
        self.context = Vec::new();
    }

    /// Drops the assignment of a name; does nothing where the name is not
    /// bound.
    pub fn remove_assignment(&mut self, name: &str) -> (removed: bool)
        ensures
            removed == binds(old(self)@.context, name@),
            removed ==> exists|at: int|
                {
                    &&& 0 <= at < old(self)@.context.len()
                    &&& old(self)@.context[at].name@ == name@
                    &&& final(self)@ == (State {
                        context: old(self)@.context.remove(at),
                        ..old(self)@
                    })
                },
            !removed ==> final(self)@ == old(self)@,
            !binds(final(self)@.context, name@),
    {
        proof {
            use_type_invariant(&*self);
            lemma_sorted_distinct(self.context@);
        }
        let key = String::from_str(name);
        match position_of(&self.context, &key) {
            Some(at) => {
                let mut context: Vec<Binding> = Vec::new();
                std::mem::swap(&mut context, &mut self.context);
                context.remove(at);
                self.context = context;
                assert(self@.context == old(self)@.context.remove(at as int));
                true
            },
            None => false,
        }
    }
}

} // verus!
