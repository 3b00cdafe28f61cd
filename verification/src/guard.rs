//! The guard: which token lists may be handed to the evaluator.
//!
//! `m_calc::calculate` works on a token list in passes, and calls itself on
//! parts of the list:
//!
//! 1. It drops one `;` at the end and cuts the list into statements at every
//!    other `;`. A statement with one `=` must read `name = value`. A value
//!    that holds an identifier is stored as it stands; a value that holds none
//!    is evaluated at once, by a call on the value, and the number is stored.
//!    The statements without `=` are put together again.
//! 2. It puts, for every identifier that is bound, the stored tokens in
//!    parentheses in its place, and starts over until none is left.
//! 3. It makes one token of every `\ name ( argument )` and evaluates the
//!    argument by a call on it.
//! 4. It evaluates what stands in every pair of parentheses by a call on it.
//! 5. It puts `*` between operands that touch, checks the order of the tokens,
//!    and folds the operators, each with the token before and after it.
//!
//! Most of what is wrong with a list it answers with an error. Four things it
//! does not survive:
//!
//! - In pass 2 it never ends where a name is bound to tokens that lead back to
//!   the name.
//! - In pass 4 it looks for the `)` of a `(` by index and runs off the end of
//!   the list where there is none.
//! - In pass 3 it counts parentheses from the second token of the argument
//!   on. Where the first one is a `(`, it takes the argument to end too
//!   early, and the call on the argument meets a `(` that is never closed.
//!   (Where the first one is a `)`, it takes the argument to end too late or
//!   not at all; the argument then begins with a `)` that nothing opens, and
//!   that is answered with an error.)
//! - In pass 5 a `-` may stand first, alone among the operators, and is then
//!   folded with a token at index `0 - 1`.
//!
//! What stands in parentheses is evaluated as a list of its own, and so is
//! an argument, so what holds of the first token of the list holds of the
//! first token after every `(`; and as pass 2 writes parentheses, a bound
//! identifier counts as a `(` for what comes before it. A `;` inside
//! parentheses would give an empty result, which is dropped and may leave a
//! `-` in front: the guard admits no `;` in stored tokens, and as it admits
//! no `(` left open in a statement, none comes to stand inside parentheses.
//!
//! The guard looks at what the evaluator evaluates: the statements without
//! `=`, the values without an identifier, and all stored tokens that these
//! lead to. It passes over a statement that the evaluator answers with an
//! error before it evaluates anything, and over a value that is only stored.
//! It says nothing of lists so long that the evaluator runs out of memory.

use crate::syntax::{check_closed, class_of, classify, closed, name_of, Class};
use crate::bindings::{binds, binds_to, Binding};
use m_calc::Token;
use vstd::slice::slice_subrange;
use vstd::prelude::*;

verus! {

/// A name and what it is bound to: a token list, or a number that the
/// evaluator has yet to compute (`None`).
pub struct Entry {
    pub name: Seq<char>,
    pub value: Option<Seq<Token>>,
}

/// A binding as the guard holds it while it works.
pub struct Slot<'a> {
    pub name: &'a String,
    pub value: Option<&'a [Token]>,
}

impl<'a> View for Slot<'a> {
    type V = Entry;

    open spec fn view(&self) -> Entry {
        Entry {
            name: self.name@,
            value: match self.value {
                Some(tokens) => Some(tokens@),
                None => None,
            },
        }
    }
}

/// The entries that a list of slots stands for.
pub open spec fn entries(slots: Seq<Slot>) -> Seq<Entry> {
    Seq::new(slots.len(), |i: int| slots[i]@)
}

/// The entry that a name is bound to in a scope, where a later entry hides
/// an earlier one of the same name.
pub open spec fn lookup(scope: Seq<Entry>, name: Seq<char>) -> Option<Entry>
    decreases scope.len(),
{
    if scope.len() == 0 {
        None
    } else if scope.last().name == name {
        Some(scope.last())
    } else {
        lookup(scope.drop_last(), name)
    }
}

/// The token is an identifier that the scope binds.
pub open spec fn is_bound(token: Token, scope: Seq<Entry>) -> bool {
    class_of(token) == Class::Name && lookup(scope, name_of(token)) is Some
}

/// The token at `i` stands where the evaluator can take it:
/// - it is a number, an operator or an identifier, and neither `;` nor `=`;
/// - a `-` is neither the first token nor the first after a `(`;
/// - the token after the name of a function is no bound identifier, which
///   the evaluator would replace by a parenthesis;
/// - the argument of a function begins neither with `(` nor with a bound
///   identifier.
pub open spec fn well_placed(list: Seq<Token>, i: int, scope: Seq<Entry>) -> bool {
    let class = class_of(list[i]);
    &&& class != Class::Parsed && class != Class::Break && class != Class::Assign
    &&& class == Class::Minus ==> i > 0 && class_of(list[i - 1]) != Class::Open
    &&& i >= 2 && class_of(list[i - 2]) == Class::Call ==> !is_bound(list[i], scope)
    &&& i >= 3 && class_of(list[i - 3]) == Class::Call && class_of(list[i - 1]) == Class::Open
        ==> class != Class::Open && !is_bound(list[i], scope)
}

/// The list is well formed by itself: no parenthesis is left open, and every
/// token is well placed.
pub open spec fn well_formed(list: Seq<Token>, scope: Seq<Entry>) -> bool {
    &&& closed(list)
    &&& forall|i: int| 0 <= i < list.len() ==> well_placed(list, i, scope)
}

/// The list is well formed, and so is every token list that it refers to
/// through a bound identifier, to any depth; and no chain of such references
/// is longer than `depth`.
pub open spec fn sound(list: Seq<Token>, scope: Seq<Entry>, depth: nat) -> bool
    decreases depth, 1nat,
{
    &&& well_formed(list, scope)
    &&& forall|i: int| 0 <= i < list.len() ==> refers_soundly(list[i], scope, depth)
}

/// Where the token is an identifier bound to a token list, that list is sound
/// one level further down.
pub open spec fn refers_soundly(token: Token, scope: Seq<Entry>, depth: nat) -> bool
    decreases depth, 0nat,
{
    match lookup(scope, name_of(token)) {
        Some(entry) => class_of(token) == Class::Name ==> match entry.value {
            Some(tokens) => depth > 0 && sound(tokens, scope, (depth - 1) as nat),
            None => true,
        },
        None => true,
    }
}

/// What is sound to a depth is sound to any greater depth.
pub proof fn lemma_sound_deeper(list: Seq<Token>, scope: Seq<Entry>, depth: nat, deeper: nat)
    requires
        sound(list, scope, depth),
        depth <= deeper,
    ensures
        sound(list, scope, deeper),
    decreases depth,
{
    assert forall|i: int| 0 <= i < list.len() implies refers_soundly(list[i], scope, deeper) by {
        assert(refers_soundly(list[i], scope, depth));
        if let Some(entry) = lookup(scope, name_of(list[i])) {
            if let Some(tokens) = entry.value {
                if class_of(list[i]) == Class::Name {
                    lemma_sound_deeper(tokens, scope, (depth - 1) as nat, (deeper - 1) as nat);
                }
            }
        }
    }
}

/// The entry that a name is bound to is one of the scope.
pub proof fn lemma_lookup_contained(scope: Seq<Entry>, name: Seq<char>)
    ensures
        lookup(scope, name) matches Some(entry) ==> scope.contains(entry) && entry.name == name,
    decreases scope.len(),
{
    if scope.len() > 0 {
        if scope.last().name == name {
            assert(scope[scope.len() - 1] == scope.last());
        } else {
            lemma_lookup_contained(scope.drop_last(), name);
            if let Some(entry) = lookup(scope.drop_last(), name) {
                let k = choose|k: int|
                    0 <= k < scope.drop_last().len() && scope.drop_last()[k] == entry;
                assert(scope[k] == entry);
            }
        }
    }
}

/// The list is sound to the depth and to none below it.
pub open spec fn sound_exactly(list: Seq<Token>, scope: Seq<Entry>, depth: nat) -> bool {
    &&& sound(list, scope, depth)
    &&& depth > 0 ==> !sound(list, scope, (depth - 1) as nat)
}

/// The least depth, up to `depth`, to which the list is sound.
pub open spec fn least_depth(list: Seq<Token>, scope: Seq<Entry>, depth: nat) -> nat
    decreases depth,
{
    if depth > 0 && sound(list, scope, (depth - 1) as nat) {
        least_depth(list, scope, (depth - 1) as nat)
    } else {
        depth
    }
}

/// What is sound to a depth is sound exactly to its least depth.
pub proof fn lemma_least_depth(list: Seq<Token>, scope: Seq<Entry>, depth: nat)
    requires
        sound(list, scope, depth),
    ensures
        least_depth(list, scope, depth) <= depth,
        sound_exactly(list, scope, least_depth(list, scope, depth)),
    decreases depth,
{
    if depth > 0 && sound(list, scope, (depth - 1) as nat) {
        lemma_least_depth(list, scope, (depth - 1) as nat);
    }
}

/// A chain of references that needs the whole depth: the entry of an
/// identifier of the list whose value is sound exactly one level below, then
/// the like for that value, down to depth zero.
pub open spec fn chain(list: Seq<Token>, scope: Seq<Entry>, depth: nat) -> Seq<Entry>
    decreases depth,
{
    if depth == 0 {
        Seq::empty()
    } else {
        let i = choose|i: int|
            0 <= i < list.len() && !refers_soundly(list[i], scope, (depth - 1) as nat);
        let entry = lookup(scope, name_of(list[i])).unwrap();
        seq![entry] + chain(entry.value.unwrap(), scope, (depth - 1) as nat)
    }
}

/// The chain of a list that is sound exactly to a depth has one entry for
/// each level, each of the scope, and the value of each is sound exactly to
/// its level.
pub proof fn lemma_chain(list: Seq<Token>, scope: Seq<Entry>, depth: nat)
    requires
        sound_exactly(list, scope, depth),
    ensures
        chain(list, scope, depth).len() == depth,
        forall|j: int|
            0 <= j < depth ==> {
                let entry = #[trigger] chain(list, scope, depth)[j];
                &&& scope.contains(entry)
                &&& entry.value is Some
                &&& sound_exactly(entry.value.unwrap(), scope, (depth - 1 - j) as nat)
            },
    decreases depth,
{
    if depth > 0 {
        let below = (depth - 1) as nat;
        let i = choose|i: int| 0 <= i < list.len() && !refers_soundly(list[i], scope, below);
        assert(refers_soundly(list[i], scope, depth));
        lemma_lookup_contained(scope, name_of(list[i]));
        let entry = lookup(scope, name_of(list[i])).unwrap();
        let value = entry.value.unwrap();
        assert(sound_exactly(value, scope, below));
        lemma_chain(value, scope, below);
        let rest = chain(value, scope, below);
        let whole = chain(list, scope, depth);
        assert(whole == seq![entry] + rest);
        assert forall|j: int| 0 <= j < depth implies {
            let e = #[trigger] whole[j];
            &&& scope.contains(e)
            &&& e.value is Some
            &&& sound_exactly(e.value.unwrap(), scope, (depth - 1 - j) as nat)
        } by {
            if j > 0 {
                assert(whole[j] == rest[j - 1]);
            }
        }
    }
}

/// No chain of references is longer than the scope: what is sound to any
/// depth is sound to the depth of the length of the scope.
pub proof fn lemma_depth_suffices(list: Seq<Token>, scope: Seq<Entry>, depth: nat)
    requires
        sound(list, scope, depth),
    ensures
        sound(list, scope, scope.len()),
{
    let least = least_depth(list, scope, depth);
    lemma_least_depth(list, scope, depth);
    lemma_chain(list, scope, least);
    let links = chain(list, scope, least);
    assert forall|j: int, k: int| 0 <= j < k < links.len() implies links[j] != links[k] by {
        let high = (least - 1 - j) as nat;
        let low = (least - 1 - k) as nat;
        if links[j] == links[k] {
            lemma_sound_deeper(links[k].value.unwrap(), scope, low, (high - 1) as nat);
        }
    }
    assert(links.no_duplicates());
    links.unique_seq_to_set();
    scope.lemma_cardinality_of_set();
    assert(links.to_set().subset_of(scope.to_set())) by {
        assert forall|e: Entry| links.to_set().contains(e) implies scope.to_set().contains(e) by {
            let j = choose|j: int| 0 <= j < links.len() && links[j] == e;
            assert(scope.contains(links[j]));
        }
    }
    vstd::seq_lib::seq_to_set_is_finite(scope);
    vstd::set_lib::lemma_len_subset(links.to_set(), scope.to_set());
    lemma_sound_deeper(list, scope, least, scope.len());
}

/// Finds the slot that binds a name.
pub fn find<'a, 'b>(scope: &'b Vec<Slot<'a>>, name: &String) -> (found: Option<&'b Slot<'a>>)
    ensures
        match found {
            Some(slot) => lookup(entries(scope@), name@) == Some(slot@),
            None => lookup(entries(scope@), name@) is None,
        },
{
    let mut i: usize = scope.len();
    assert(entries(scope@).take(i as int) == entries(scope@));
    while i > 0
        invariant
            i <= scope.len(),
            lookup(entries(scope@), name@) == lookup(entries(scope@).take(i as int), name@),
        decreases i,
    {
        let ghost upper = entries(scope@).take(i as int);
        assert(upper.last() == scope@[i - 1]@);
        assert(upper.drop_last() == entries(scope@).take(i - 1));
        if *scope[i - 1].name == *name {
            return Some(&scope[i - 1]);
        }
        i = i - 1;
    }
    assert(entries(scope@).take(0).len() == 0);
    None
}

/// Decides whether a token is an identifier that the scope binds.
pub fn check_bound(token: &Token, scope: &Vec<Slot>) -> (bound: bool)
    ensures
        bound == is_bound(*token, entries(scope@)),
{
    match token {
        Token::Id(name) => find(scope, name).is_some(),
        _ => false,
    }
}

/// Decides whether the token at `i` is well placed.
pub fn check_placed(list: &[Token], i: usize, scope: &Vec<Slot>) -> (ok: bool)
    requires
        i < list@.len(),
    ensures
        ok == well_placed(list@, i as int, entries(scope@)),
{
    let class = classify(&list[i]);
    if class == Class::Parsed || class == Class::Break || class == Class::Assign {
        return false;
    }
    if class == Class::Minus && (i == 0 || classify(&list[i - 1]) == Class::Open) {
        return false;
    }
    if i >= 2 && classify(&list[i - 2]) == Class::Call && check_bound(&list[i], scope) {
        return false;
    }
    if i >= 3 && classify(&list[i - 3]) == Class::Call && classify(&list[i - 1]) == Class::Open {
        if class == Class::Open || check_bound(&list[i], scope) {
            return false;
        }
    }
    true
}

/// Decides whether a list is well formed by itself.
pub fn check_well_formed(list: &[Token], scope: &Vec<Slot>) -> (ok: bool)
    ensures
        ok == well_formed(list@, entries(scope@)),
{
    if !check_closed(list) {
        return false;
    }
    let mut i: usize = 0;
    while i < list.len()
        invariant
            i <= list@.len(),
            forall|j: int| 0 <= j < i ==> well_placed(list@, j, entries(scope@)),
        decreases list@.len() - i,
    {
        if !check_placed(list, i, scope) {
            return false;
        }
        i = i + 1;
    }
    true
}

/// Decides whether a list is sound to the given depth.
pub fn check_sound(list: &[Token], scope: &Vec<Slot>, depth: usize) -> (ok: bool)
    ensures
        ok == sound(list@, entries(scope@), depth as nat),
    decreases depth, 1nat,
{
    if !check_well_formed(list, scope) {
        return false;
    }
    let mut i: usize = 0;
    while i < list.len()
        invariant
            i <= list@.len(),
            forall|j: int| 0 <= j < i ==> refers_soundly(list@[j], entries(scope@), depth as nat),
        decreases list@.len() - i,
    {
        if !check_reference(&list[i], scope, depth) {
            return false;
        }
        i = i + 1;
    }
    true
}

/// Decides whether what a token refers to is sound.
pub fn check_reference(token: &Token, scope: &Vec<Slot>, depth: usize) -> (ok: bool)
    ensures
        ok == refers_soundly(*token, entries(scope@), depth as nat),
    decreases depth, 0nat,
{
    match token {
        Token::Id(name) => match find(scope, name) {
            Some(slot) => match slot.value {
                Some(tokens) => depth > 0 && check_sound(tokens, scope, depth - 1),
                None => true,
            },
            None => true,
        },
        _ => true,
    }
}

/// The list without the `;` that may end it.
pub open spec fn trimmed(tokens: Seq<Token>) -> Seq<Token> {
    if tokens.len() > 0 && class_of(tokens.last()) == Class::Break {
        tokens.drop_last()
    } else {
        tokens
    }
}

/// The number of tokens from `from` up to the next `;`, or to the end.
pub open spec fn statement_len(list: Seq<Token>, from: int) -> nat
    decreases list.len() - from,
{
    if from < 0 || from >= list.len() || class_of(list[from]) == Class::Break {
        0
    } else {
        1 + statement_len(list, from + 1)
    }
}

/// The statement that begins at `from`: the tokens up to the next `;`.
pub open spec fn statement_at(list: Seq<Token>, from: int) -> Seq<Token> {
    list.subrange(from, from + statement_len(list, from))
}

/// The statement holds no `=`: it is an expression to evaluate.
pub open spec fn is_plain(statement: Seq<Token>) -> bool {
    forall|i: int| 0 <= i < statement.len() ==> class_of(statement[i]) != Class::Assign
}

/// The statement is an identifier, `=`, and tokens without another `=`.
pub open spec fn is_assignment(statement: Seq<Token>) -> bool {
    &&& statement.len() >= 2
    &&& class_of(statement[0]) == Class::Name
    &&& class_of(statement[1]) == Class::Assign
    &&& forall|i: int| 2 <= i < statement.len() ==> class_of(statement[i]) != Class::Assign
}

/// What stands right of the `=` of an assignment.
pub open spec fn assigned_value(statement: Seq<Token>) -> Seq<Token> {
    statement.subrange(2, statement.len() as int)
}

/// The list holds an identifier.
pub open spec fn has_name(list: Seq<Token>) -> bool {
    exists|i: int| 0 <= i < list.len() && class_of(list[i]) == Class::Name
}

/// What an assignment binds: its value as it stands where that holds an
/// identifier, and else the number that the evaluator computes from it.
pub open spec fn entry_of(statement: Seq<Token>) -> Entry {
    Entry {
        name: name_of(statement[0]),
        value: if has_name(assigned_value(statement)) {
            Some(assigned_value(statement))
        } else {
            None
        },
    }
}

/// The entries that the assignments from `from` on bind, in their order.
pub open spec fn assigned(list: Seq<Token>, from: int) -> Seq<Entry>
    decreases list.len() - from,
{
    if from < 0 || from >= list.len() {
        Seq::empty()
    } else {
        let statement = statement_at(list, from);
        let next = from + statement_len(list, from) + 1;
        let rest = if next < list.len() {
            assigned(list, next)
        } else {
            Seq::empty()
        };
        if is_assignment(statement) {
            seq![entry_of(statement)] + rest
        } else {
            rest
        }
    }
}

/// What the list assigns to a name: the entry of its last assignment to it.
pub open spec fn assigns(tokens: Seq<Token>, name: Seq<char>) -> Option<Entry> {
    lookup(assigned(trimmed(tokens), 0), name)
}

/// What an evaluation of the tokens keeps of the bindings before it: every
/// name stays bound, a name that the tokens do not assign to keeps its value,
/// and a new name is one that the tokens assign to.
pub open spec fn kept(before: Seq<Binding>, tokens: Seq<Token>, after: Seq<Binding>) -> bool {
    &&& forall|name: Seq<char>| binds(before, name) ==> binds(after, name)
    &&& forall|name: Seq<char>, value: Seq<Token>|
        binds_to(before, name, value) && assigns(tokens, name) is None ==> binds_to(
            after,
            name,
            value,
        )
    &&& forall|name: Seq<char>|
        binds(after, name) ==> binds(before, name) || assigns(tokens, name) is Some
}

/// The bindings hold every assignment of the tokens: a name that the tokens
/// assign to is bound to the tokens of the value where that holds an
/// identifier, and else to one token.
pub open spec fn assigned_in(tokens: Seq<Token>, after: Seq<Binding>) -> bool {
    forall|name: Seq<char>|
        assigns(tokens, name) is Some ==> match assigns(tokens, name).unwrap().value {
            Some(value) => binds_to(after, name, value),
            None => exists|value: Seq<Token>| binds_to(after, name, value) && value.len() == 1,
        }
}

/// What the evaluator evaluates of a statement is sound: a plain statement
/// itself, and the value of an assignment where it holds no identifier. (A
/// value with an identifier is stored as it stands; a statement of any other
/// form is refused by the evaluator before it evaluates anything.)
pub open spec fn statement_sound(statement: Seq<Token>, scope: Seq<Entry>, depth: nat) -> bool {
    if is_plain(statement) {
        sound(statement, scope, depth)
    } else if is_assignment(statement) && !has_name(assigned_value(statement)) {
        sound(assigned_value(statement), scope, depth)
    } else {
        true
    }
}

/// Every statement from `from` on is sound.
pub open spec fn statements_sound(
    list: Seq<Token>,
    from: int,
    scope: Seq<Entry>,
    depth: nat,
) -> bool
    decreases list.len() - from,
{
    if from < 0 || from >= list.len() {
        true
    } else {
        let statement = statement_at(list, from);
        let next = from + statement_len(list, from) + 1;
        &&& statement_sound(statement, scope, depth)
        &&& next < list.len() ==> statements_sound(list, next, scope, depth)
    }
}

/// The bindings of a session as the entries of a scope.
pub open spec fn stored_entries(stored: Seq<Binding>) -> Seq<Entry> {
    Seq::new(stored.len(), |i: int| Entry { name: stored[i].name@, value: Some(stored[i].value@) })
}

/// The token list can be handed to the evaluator with these bindings: in the
/// scope made of the bindings and of what the list itself assigns, every
/// statement is sound, with no chain of references longer than the scope.
pub open spec fn evaluable(tokens: Seq<Token>, stored: Seq<Binding>) -> bool {
    let list = trimmed(tokens);
    let scope = stored_entries(stored) + assigned(list, 0);
    statements_sound(list, 0, scope, scope.len())
}

/// Statements that are sound to any depth are sound to the depth of the
/// length of the scope.
pub proof fn lemma_statements_depth(
    list: Seq<Token>,
    from: int,
    scope: Seq<Entry>,
    depth: nat,
)
    requires
        statements_sound(list, from, scope, depth),
    ensures
        statements_sound(list, from, scope, scope.len()),
    decreases list.len() - from,
{
    if 0 <= from < list.len() {
        let statement = statement_at(list, from);
        let next = from + statement_len(list, from) + 1;
        if is_plain(statement) {
            lemma_depth_suffices(statement, scope, depth);
        } else if is_assignment(statement) && !has_name(assigned_value(statement)) {
            lemma_depth_suffices(assigned_value(statement), scope, depth);
        }
        if next < list.len() {
            lemma_statements_depth(list, next, scope, depth);
        }
    }
}

/// The guard loses nothing by its bound on the depth of references: a token
/// list whose statements are sound to any depth is evaluable.
pub proof fn lemma_evaluable_at_any_depth(tokens: Seq<Token>, stored: Seq<Binding>, depth: nat)
    requires
        statements_sound(
            trimmed(tokens),
            0,
            stored_entries(stored) + assigned(trimmed(tokens), 0),
            depth,
        ),
    ensures
        evaluable(tokens, stored),
{
    lemma_statements_depth(
        trimmed(tokens),
        0,
        stored_entries(stored) + assigned(trimmed(tokens), 0),
        depth,
    );
}

/// Finds the end of the statement that begins at `from`.
pub fn statement_end(list: &[Token], from: usize) -> (end: usize)
    requires
        from <= list@.len(),
    ensures
        end == from + statement_len(list@, from as int),
        end <= list@.len(),
{
    let mut end: usize = from;
    while end < list.len() && classify(&list[end]) != Class::Break
        invariant
            from <= end <= list@.len(),
            from + statement_len(list@, from as int) == end + statement_len(list@, end as int),
        decreases list@.len() - end,
    {
        end = end + 1;
    }
    end
}

/// Decides whether a statement is plain.
pub fn check_plain(statement: &[Token]) -> (plain: bool)
    ensures
        plain == is_plain(statement@),
{
    let mut i: usize = 0;
    while i < statement.len()
        invariant
            i <= statement@.len(),
            forall|j: int| 0 <= j < i ==> class_of(statement@[j]) != Class::Assign,
        decreases statement@.len() - i,
    {
        if classify(&statement[i]) == Class::Assign {
            return false;
        }
        i = i + 1;
    }
    true
}

/// Decides whether a statement is an assignment.
pub fn check_assignment(statement: &[Token]) -> (assignment: bool)
    ensures
        assignment == is_assignment(statement@),
{
    if statement.len() < 2 || classify(&statement[0]) != Class::Name || classify(&statement[1])
        != Class::Assign {
        return false;
    }
    let mut i: usize = 2;
    while i < statement.len()
        invariant
            2 <= i <= statement@.len(),
            forall|j: int| 2 <= j < i ==> class_of(statement@[j]) != Class::Assign,
        decreases statement@.len() - i,
    {
        if classify(&statement[i]) == Class::Assign {
            return false;
        }
        i = i + 1;
    }
    true
}

/// Decides whether a list holds an identifier.
pub fn check_has_name(list: &[Token]) -> (found: bool)
    ensures
        found == has_name(list@),
{
    let mut i: usize = 0;
    while i < list.len()
        invariant
            i <= list@.len(),
            forall|j: int| 0 <= j < i ==> class_of(list@[j]) != Class::Name,
        decreases list@.len() - i,
    {
        if classify(&list[i]) == Class::Name {
            return true;
        }
        i = i + 1;
    }
    false
}

/// The name of an identifier.
pub fn name_ref(token: &Token) -> (name: Option<&String>)
    ensures
        match name {
            Some(name) => class_of(*token) == Class::Name && name@ == name_of(*token),
            None => class_of(*token) != Class::Name,
        },
{
    match token {
        Token::Id(name) => Some(name),
        _ => None,
    }
}

/// Decides whether what the evaluator evaluates of a statement is sound.
pub fn check_statement(statement: &[Token], scope: &Vec<Slot>, depth: usize) -> (ok: bool)
    ensures
        ok == statement_sound(statement@, entries(scope@), depth as nat),
{
    if check_plain(statement) {
        check_sound(statement, scope, depth)
    } else if check_assignment(statement) {
        let value = slice_subrange(statement, 2, statement.len());
        check_has_name(value) || check_sound(value, scope, depth)
    } else {
        true
    }
}

/// Decides whether a token list can be handed to the evaluator with the
/// bindings of a session.
pub fn check_evaluable(tokens: &Vec<Token>, stored: &Vec<Binding>) -> (ok: bool)
    ensures
        ok == evaluable(tokens@, stored@),
{
    let length = tokens.len();
    let upto = if length > 0 && classify(&tokens[length - 1]) == Class::Break {
        length - 1
    } else {
        length
    };
    let list = slice_subrange(tokens.as_slice(), 0, upto);
    assert(list@ == trimmed(tokens@));

    let mut scope: Vec<Slot> = Vec::new();
    let mut k: usize = 0;
    while k < stored.len()
        invariant
            k <= stored@.len(),
            entries(scope@) == stored_entries(stored@).take(k as int),
        decreases stored@.len() - k,
    {
        let ghost before = entries(scope@);
        let slot = Slot { name: &stored[k].name, value: Some(stored[k].value.as_slice()) };
        scope.push(slot);
        assert(entries(scope@) == before.push(slot@));
        assert(stored_entries(stored@).take(k + 1) == stored_entries(stored@).take(k as int).push(
            stored_entries(stored@)[k as int],
        ));
        k = k + 1;
    }
    assert(stored_entries(stored@).take(k as int) == stored_entries(stored@));

    let ghost whole = stored_entries(stored@) + assigned(list@, 0);
    let mut from: usize = 0;
    while from < list.len()
        invariant
            from <= list@.len(),
            entries(scope@) + assigned(list@, from as int) == whole,
        decreases list@.len() - from,
    {
        let ghost before = entries(scope@);
        let end = statement_end(list, from);
        let statement = slice_subrange(list, from, end);
        assert(statement@ == statement_at(list@, from as int));
        let next = if end < list.len() {
            end + 1
        } else {
            end
        };
        if check_assignment(statement) {
            match name_ref(&statement[0]) {
                Some(name) => {
                    let value = slice_subrange(statement, 2, statement.len());
                    let slot = if check_has_name(value) {
                        Slot { name, value: Some(value) }
                    } else {
                        Slot { name, value: None }
                    };
                    scope.push(slot);
                    assert(slot@ == entry_of(statement@));
                    assert(entries(scope@) == before.push(slot@));
                    assert(before.push(slot@) + assigned(list@, next as int) == before + (
                    seq![slot@] + assigned(list@, next as int)));
                },
                None => {},
            }
        }
        from = next;
    }
    assert(entries(scope@) == whole);

    let depth = scope.len();
    let mut from: usize = 0;
    while from < list.len()
        invariant
            from <= list@.len(),
            list@ == trimmed(tokens@),
            entries(scope@) == stored_entries(stored@) + assigned(list@, 0),
            depth == scope@.len(),
            statements_sound(list@, 0, entries(scope@), depth as nat) == statements_sound(
                list@,
                from as int,
                entries(scope@),
                depth as nat,
            ),
        decreases list@.len() - from,
    {
        let end = statement_end(list, from);
        let statement = slice_subrange(list, from, end);
        assert(statement@ == statement_at(list@, from as int));
        if !check_statement(statement, &scope, depth) {
            return false;
        }
        from = if end < list.len() {
            end + 1
        } else {
            end
        };
    }
    true
}

} // verus!
