//! The stack-machine interpreter: a value stack of operand tokens and a
//! variable table, driven one token at a time.
//!
//! The whole per-token semantics is captured by the specification function
//! [`step`]: `interpret` is proved to realize it exactly, including which
//! error comes out on which state.

use vstd::prelude::*;

use crate::error::{ErrorView, VmError};
use crate::token::{Token, TokenView};

verus! {

/// What a `Print` token asks the surrounding read-print loop to emit:
/// nothing, the empty-stack notice, or the resolved top value.
#[derive(Debug, Clone, Copy, PartialEq, Eq)]
pub enum Output {
    Silent,
    EmptyNotice,
    TopValue(i64),
}

/// Addition on `i64` with two's-complement wraparound, as `wrapping_add`
/// computes it.
pub open spec fn wrap_add(b: i64, a: i64) -> i64 {
    if b + a > i64::MAX {
        (b + a - 0x1_0000_0000_0000_0000) as i64
    } else if b + a < i64::MIN {
        (b + a + 0x1_0000_0000_0000_0000) as i64
    } else {
        (b + a) as i64
    }
}

/// Subtraction on `i64` with two's-complement wraparound, as `wrapping_sub`
/// computes it.
pub open spec fn wrap_sub(b: i64, a: i64) -> i64 {
    if b - a > i64::MAX {
        (b - a - 0x1_0000_0000_0000_0000) as i64
    } else if b - a < i64::MIN {
        (b - a + 0x1_0000_0000_0000_0000) as i64
    } else {
        (b - a) as i64
    }
}

/// The variable table described by an association list: the entry nearest the
/// front wins, so a lookup that scans from the front agrees with this map.
pub open spec fn assoc_map(s: Seq<(String, i64)>) -> Map<Seq<char>, i64>
    decreases s.len(),
{
    if s.len() == 0 {
        Map::empty()
    } else {
        assoc_map(s.drop_first()).insert(s[0].0@, s[0].1)
    }
}

/// Resolving one operand token to an integer: a number is its own value, a
/// name is looked up in the variable table, an operator is malformed.
pub open spec fn resolve_one(names: Map<Seq<char>, i64>, t: TokenView) -> Result<i64, ErrorView> {
    match t {
        TokenView::Number(n) => Ok(n),
        TokenView::Name(id) => if names.dom().contains(id) {
            Ok(names[id])
        } else {
            Err(ErrorView::Undefined(id))
        },
        _ => Err(ErrorView::Syntax),
    }
}

/// Pop-and-resolve: the value of the top stack entry (or the error), together
/// with the stack after the pop. An empty stack is a syntax error (underflow)
/// and stays empty.
pub open spec fn pop_resolve(stack: Seq<TokenView>, names: Map<Seq<char>, i64>) -> (Result<
    i64,
    ErrorView,
>, Seq<TokenView>) {
    if stack.len() == 0 {
        (Err(ErrorView::Syntax), stack)
    } else {
        (resolve_one(names, stack.last()), stack.drop_last())
    }
}

/// The complete effect of one token on the interpreter: the outcome handed
/// back to the caller, and the stack and variable table after the step.
pub struct StepResult {
    pub outcome: Result<Output, ErrorView>,
    pub stack: Seq<TokenView>,
    pub names: Map<Seq<char>, i64>,
}

/// Effect of `Add` or `Subtract`: pop and resolve `a`, then `b`, and push
/// `b + a` or `b - a` (wrapping). The first failure wins.
pub open spec fn step_binop(
    stack: Seq<TokenView>,
    names: Map<Seq<char>, i64>,
    is_add: bool,
) -> StepResult {
    let (ra, s1) = pop_resolve(stack, names);
    match ra {
        Err(e) => StepResult { outcome: Err(e), stack: s1, names },
        Ok(a) => {
            let (rb, s2) = pop_resolve(s1, names);
            match rb {
                Err(e) => StepResult { outcome: Err(e), stack: s2, names },
                Ok(b) => StepResult {
                    outcome: Ok(Output::Silent),
                    stack: s2.push(
                        TokenView::Number(if is_add { wrap_add(b, a) } else { wrap_sub(b, a) }),
                    ),
                    names,
                },
            }
        },
    }
}

/// Effect of `Assign`: the popped target must be a name (not a number, not an
/// empty stack), then the right-hand side is popped and resolved and stored
/// under that name, overwriting any prior value.
pub open spec fn step_assign(stack: Seq<TokenView>, names: Map<Seq<char>, i64>) -> StepResult {
    if stack.len() == 0 {
        StepResult { outcome: Err(ErrorView::Syntax), stack, names }
    } else {
        match stack.last() {
            TokenView::Name(id) => {
                let s1 = stack.drop_last();
                let (rv, s2) = pop_resolve(s1, names);
                match rv {
                    Ok(v) => StepResult {
                        outcome: Ok(Output::Silent),
                        stack: s2,
                        names: names.insert(id, v),
                    },
                    Err(e) => StepResult { outcome: Err(e), stack: s2, names },
                }
            },
            _ => StepResult { outcome: Err(ErrorView::Syntax), stack: stack.drop_last(), names },
        }
    }
}

/// Effect of `Print`: on an empty stack, the non-fatal empty notice; else the
/// top value is popped (printing is destructive) and resolved.
pub open spec fn step_print(stack: Seq<TokenView>, names: Map<Seq<char>, i64>) -> StepResult {
    if stack.len() == 0 {
        StepResult { outcome: Ok(Output::EmptyNotice), stack, names }
    } else {
        let (rv, rest) = pop_resolve(stack, names);
        match rv {
            Ok(v) => StepResult { outcome: Ok(Output::TopValue(v)), stack: rest, names },
            Err(e) => StepResult { outcome: Err(e), stack: rest, names },
        }
    }
}

/// The per-token transition of the whole machine: state is exactly the pair
/// (stack contents, variable table contents).
pub open spec fn step(stack: Seq<TokenView>, names: Map<Seq<char>, i64>, t: TokenView) -> StepResult {
    match t {
        TokenView::Number(_) => StepResult {
            outcome: Ok(Output::Silent),
            stack: stack.push(t),
            names,
        },
        TokenView::Name(_) => StepResult { outcome: Ok(Output::Silent), stack: stack.push(t), names },
        TokenView::Print => step_print(stack, names),
        TokenView::Add => step_binop(stack, names, true),
        TokenView::Subtract => step_binop(stack, names, false),
        TokenView::Assign => step_assign(stack, names),
    }
}

/// A `Result` whose error is viewed: lets contracts state the exact outcome.
pub open spec fn outcome_view(r: Result<Output, VmError>) -> Result<Output, ErrorView> {
    match r {
        Ok(o) => Ok(o),
        Err(e) => Err(e@),
    }
}

/// A `Result` of pop-and-resolve, with the error viewed.
pub open spec fn value_view(r: Result<i64, VmError>) -> Result<i64, ErrorView> {
    match r {
        Ok(v) => Ok(v),
        Err(e) => Err(e@),
    }
}

/// The interpreter: owns the operand stack and the variable table; state
/// accumulates across input lines for the lifetime of the instance.
pub struct VirtualMachine {
    stack: Vec<Token>,
    names: Vec<(String, i64)>,
}

impl VirtualMachine {
    /// The operand stack, as the sequence of token models, bottom first.
    pub closed spec fn stack_view(&self) -> Seq<TokenView> {
        self.stack@.map_values(|t: Token| t@)
    }

    /// The variable table, as a map from name to last-assigned value.
    pub closed spec fn names_view(&self) -> Map<Seq<char>, i64> {
        assoc_map(self.names@)
    }

    /// A fresh interpreter: empty stack, empty variable table.
    pub fn new() -> (vm: VirtualMachine)
        ensures
            vm.stack_view() == Seq::<TokenView>::empty(),
            vm.names_view() == Map::<Seq<char>, i64>::empty(),
    {
        let vm = VirtualMachine { stack: Vec::new(), names: Vec::new() };
        proof {
            assert(vm.stack_view() =~= Seq::<TokenView>::empty());
        }
        vm
    }

    /// Look a name up in the variable table: its last-assigned value, or an
    /// undefined-variable error carrying the name.
    pub fn get_value(&self, name: String) -> (r: Result<i64, VmError>)
        ensures
            value_view(r) == resolve_one(self.names_view(), TokenView::Name(name@)),
    {
        let n = self.names.len();
        let mut i: usize = 0;
        while i < n
            invariant
                n == self.names@.len(),
                i <= n,
                forall|j: int| 0 <= j < i ==> self.names@[j].0@ != name@,
            decreases n - i,
        {
            if self.names[i].0 == name {
                proof {
                    lemma_assoc_first_match(self.names@, i as int);
                }
                return Ok(self.names[i].1);
            }
            i += 1;
        }
        proof {
            lemma_assoc_no_match(self.names@, name@);
        }
        Err(VmError::UndefinedVariable(name))
    }

    /// Store `value` under `name`, overwriting any prior binding.
    fn set_value(&mut self, name: String, value: i64)
        ensures
            final(self).names_view() == old(self).names_view().insert(name@, value),
            final(self).stack_view() == old(self).stack_view(),
    {
        let n = self.names.len();
        let mut i: usize = 0;
        while i < n
            invariant
                *self == *old(self),
                n == self.names@.len(),
                i <= n,
                forall|j: int| 0 <= j < i ==> self.names@[j].0@ != name@,
            decreases n - i,
        {
            if self.names[i].0 == name {
                proof {
                    lemma_assoc_update_first(
                        self.names@,
                        i as int,
                        (self.names@[i as int].0, value),
                    );
                }
                self.names[i].1 = value;
                proof {
                    assert(self.names@ =~= old(self).names@.update(
                        i as int,
                        (old(self).names@[i as int].0, value),
                    ));
                }
                return ;
            }
            i += 1;
        }
        proof {
            lemma_assoc_push(self.names@, (name, value));
        }
        self.names.push((name, value));
    }

    /// Pop the top stack entry and resolve it to an integer; underflow and
    /// unresolvable entries fail exactly as [`pop_resolve`] says. The pop
    /// happens even when resolution then fails.
    pub fn get_value_from_stack(&mut self) -> (r: Result<i64, VmError>)
        ensures
            value_view(r) == pop_resolve(old(self).stack_view(), old(self).names_view()).0,
            final(self).stack_view() == pop_resolve(
                old(self).stack_view(),
                old(self).names_view(),
            ).1,
            final(self).names_view() == old(self).names_view(),
    {
        let token = self.stack.pop();
        proof {
            if old(self).stack@.len() > 0 {
                assert(self.stack_view() =~= old(self).stack_view().drop_last());
                assert(old(self).stack_view().last() == old(self).stack@.last()@);
            }
        }
        match token {
            Some(Token::Number(n)) => Ok(n),
            Some(Token::Name(name)) => self.get_value(name),
            Some(_) => Err(VmError::SyntaxError),
            None => Err(VmError::SyntaxError),
        }
    }

    /// Pop and resolve `a` then `b`, and push `Number(b + a)` (wrapping).
    pub fn add(&mut self) -> (r: Result<(), VmError>)
        ensures
            binop_matches(old(self), final(self), r, true),
    {
        let a = match self.get_value_from_stack() {
            Ok(v) => v,
            Err(e) => { return Err(e) },
        };
        let b = match self.get_value_from_stack() {
            Ok(v) => v,
            Err(e) => { return Err(e) },
        };
        let c = b.wrapping_add(a);
        proof {
            assert(c == wrap_add(b, a));
        }
        let ghost prev = self.stack@;
        self.stack.push(Token::Number(c));
        proof {
            crate::token::lemma_token_views_push(prev, Token::Number(c));
        }
        Ok(())
    }

    /// Pop and resolve `a` then `b`, and push `Number(b - a)` (wrapping):
    /// the second-popped value is the minuend, as in conventional RPN.
    pub fn sub(&mut self) -> (r: Result<(), VmError>)
        ensures
            binop_matches(old(self), final(self), r, false),
    {
        let a = match self.get_value_from_stack() {
            Ok(v) => v,
            Err(e) => { return Err(e) },
        };
        let b = match self.get_value_from_stack() {
            Ok(v) => v,
            Err(e) => { return Err(e) },
        };
        let c = b.wrapping_sub(a);
        proof {
            assert(c == wrap_sub(b, a));
        }
        let ghost prev = self.stack@;
        self.stack.push(Token::Number(c));
        proof {
            crate::token::lemma_token_views_push(prev, Token::Number(c));
        }
        Ok(())
    }

    /// Pop the assignment target, which must be a name, then pop and resolve
    /// the right-hand side and store it under that name.
    pub fn assign(&mut self) -> (r: Result<(), VmError>)
        ensures
            assign_matches(old(self), final(self), r),
    {
        let token = self.stack.pop();
        proof {
            if old(self).stack@.len() > 0 {
                assert(self.stack@.map_values(|t: Token| t@) =~= old(
                    self,
                ).stack_view().drop_last());
                assert(old(self).stack_view().last() == old(self).stack@.last()@);
            }
        }
        let name = match token {
            Some(Token::Name(name)) => name,
            _ => { return Err(VmError::SyntaxError) },
        };
        let value = match self.get_value_from_stack() {
            Ok(v) => v,
            Err(e) => { return Err(e) },
        };
        self.set_value(name, value);
        Ok(())
    }

    /// Execute `Print`: report the empty-stack notice on an empty stack, else
    /// pop and resolve the top value and report it. Printing is destructive.
    pub fn print(&mut self) -> (r: Result<Output, VmError>)
        ensures
            print_matches(old(self), final(self), r),
    {
        if self.stack.len() == 0 {
            proof {
                assert(old(self).stack_view().len() == 0);
            }
            return Ok(Output::EmptyNotice);
        }
        match self.get_value_from_stack() {
            Ok(v) => Ok(Output::TopValue(v)),
            Err(e) => Err(e),
        }
    }

    /// Execute one token against the current state: the outcome and the new
    /// state are exactly those of the specification transition [`step`].
    pub fn interpret(&mut self, token: Token) -> (r: Result<Output, VmError>)
        ensures
            outcome_view(r) == step(old(self).stack_view(), old(self).names_view(), token@).outcome,
            final(self).stack_view() == step(
                old(self).stack_view(),
                old(self).names_view(),
                token@,
            ).stack,
            final(self).names_view() == step(
                old(self).stack_view(),
                old(self).names_view(),
                token@,
            ).names,
    {
        match token {
            Token::Number(_) => {
                self.stack.push(token);
                proof {
                    crate::token::lemma_token_views_push(old(self).stack@, self.stack@.last());
                }
                Ok(Output::Silent)
            },
            Token::Name(_) => {
                self.stack.push(token);
                proof {
                    crate::token::lemma_token_views_push(old(self).stack@, self.stack@.last());
                }
                Ok(Output::Silent)
            },
            Token::Print => self.print(),
            Token::Assign => {
                match self.assign() {
                    Ok(()) => Ok(Output::Silent),
                    Err(e) => Err(e),
                }
            },
            Token::Add => {
                match self.add() {
                    Ok(()) => Ok(Output::Silent),
                    Err(e) => Err(e),
                }
            },
            Token::Subtract => {
                match self.sub() {
                    Ok(()) => Ok(Output::Silent),
                    Err(e) => Err(e),
                }
            },
        }
    }
}

/// The contract of `add`/`sub`: outcome and state agree with [`step_binop`].
pub open spec fn binop_matches(
    pre: &VirtualMachine,
    post: &VirtualMachine,
    r: Result<(), VmError>,
    is_add: bool,
) -> bool {
    let sr = step_binop(pre.stack_view(), pre.names_view(), is_add);
    &&& (match r {
        Ok(u) => sr.outcome == Ok::<Output, ErrorView>(Output::Silent),
        Err(e) => sr.outcome == Err::<Output, ErrorView>(e@),
    })
    &&& post.stack_view() == sr.stack
    &&& post.names_view() == sr.names
}

/// The contract of `assign`: outcome and state agree with [`step_assign`].
pub open spec fn assign_matches(
    pre: &VirtualMachine,
    post: &VirtualMachine,
    r: Result<(), VmError>,
) -> bool {
    let sr = step_assign(pre.stack_view(), pre.names_view());
    &&& (match r {
        Ok(u) => sr.outcome == Ok::<Output, ErrorView>(Output::Silent),
        Err(e) => sr.outcome == Err::<Output, ErrorView>(e@),
    })
    &&& post.stack_view() == sr.stack
    &&& post.names_view() == sr.names
}

/// The contract of `print`: outcome and state agree with [`step_print`].
pub open spec fn print_matches(
    pre: &VirtualMachine,
    post: &VirtualMachine,
    r: Result<Output, VmError>,
) -> bool {
    let sr = step_print(pre.stack_view(), pre.names_view());
    &&& outcome_view(r) == sr.outcome
    &&& post.stack_view() == sr.stack
    &&& post.names_view() == sr.names
}

/// The stack is last-in first-out: pushing `Number(a)` then `Number(b)` and
/// popping-and-resolving twice yields `b` first, then `a`, and restores the
/// original stack.
pub proof fn lemma_stack_lifo(stack: Seq<TokenView>, names: Map<Seq<char>, i64>, a: i64, b: i64)
    ensures
        ({
            let s1 = step(stack, names, TokenView::Number(a)).stack;
            let s2 = step(s1, names, TokenView::Number(b)).stack;
            let (r1, s3) = pop_resolve(s2, names);
            let (r2, s4) = pop_resolve(s3, names);
            &&& r1 == Ok::<i64, ErrorView>(b)
            &&& r2 == Ok::<i64, ErrorView>(a)
            &&& s4 == stack
        }),
{
    let s1 = stack.push(TokenView::Number(a));
    let s2 = s1.push(TokenView::Number(b));
    assert(s2.drop_last() =~= s1);
    assert(s1.drop_last() =~= stack);
}

/// Arithmetic order: with `x` pushed before `y`, `Subtract` pops `y` first
/// and `x` second and pushes `Number(x - y)` — the earlier-pushed value is
/// the minuend, as in conventional reverse Polish notation.
pub proof fn lemma_arithmetic_order(
    stack: Seq<TokenView>,
    names: Map<Seq<char>, i64>,
    x: i64,
    y: i64,
)
    ensures
        step(
            stack.push(TokenView::Number(x)).push(TokenView::Number(y)),
            names,
            TokenView::Subtract,
        ).stack == stack.push(TokenView::Number(wrap_sub(x, y))),
        step(
            stack.push(TokenView::Number(x)).push(TokenView::Number(y)),
            names,
            TokenView::Subtract,
        ).outcome == Ok::<Output, ErrorView>(Output::Silent),
        i64::MIN <= x - y <= i64::MAX ==> wrap_sub(x, y) == x - y,
{
    let s1 = stack.push(TokenView::Number(x));
    let s2 = s1.push(TokenView::Number(y));
    assert(s2.drop_last() =~= s1);
    assert(s1.drop_last() =~= stack);
}

/// Assignment and recall: with `v` below the name `id` on the stack, `Assign`
/// stores `v` under `id`, and resolving `id` afterwards yields `v`.
pub proof fn lemma_assign_recall(
    stack: Seq<TokenView>,
    names: Map<Seq<char>, i64>,
    id: Seq<char>,
    v: i64,
)
    ensures
        ({
            let sr = step(
                stack.push(TokenView::Number(v)).push(TokenView::Name(id)),
                names,
                TokenView::Assign,
            );
            &&& sr.outcome == Ok::<Output, ErrorView>(Output::Silent)
            &&& sr.stack == stack
            &&& resolve_one(sr.names, TokenView::Name(id)) == Ok::<i64, ErrorView>(v)
        }),
{
    let s1 = stack.push(TokenView::Number(v));
    let s2 = s1.push(TokenView::Name(id));
    assert(s2.drop_last() =~= s1);
    assert(s1.drop_last() =~= stack);
}

/// The first entry for a key decides the association-list map.
proof fn lemma_assoc_first_match(s: Seq<(String, i64)>, i: int)
    requires
        0 <= i < s.len(),
        forall|j: int| 0 <= j < i ==> s[j].0@ != s[i].0@,
    ensures
        assoc_map(s).dom().contains(s[i].0@),
        assoc_map(s)[s[i].0@] == s[i].1,
    decreases i,
{
    if i == 0 {
    } else {
        lemma_assoc_first_match(s.drop_first(), i - 1);
    }
}

/// A key under no entry is not in the association-list map.
proof fn lemma_assoc_no_match(s: Seq<(String, i64)>, k: Seq<char>)
    requires
        forall|j: int| 0 <= j < s.len() ==> s[j].0@ != k,
    ensures
        !assoc_map(s).dom().contains(k),
    decreases s.len(),
{
    if s.len() > 0 {
        lemma_assoc_no_match(s.drop_first(), k);
    }
}

/// Updating the first entry for a key is `insert` on the map.
proof fn lemma_assoc_update_first(s: Seq<(String, i64)>, i: int, e: (String, i64))
    requires
        0 <= i < s.len(),
        s[i].0@ == e.0@,
        forall|j: int| 0 <= j < i ==> s[j].0@ != e.0@,
    ensures
        assoc_map(s.update(i, e)) == assoc_map(s).insert(e.0@, e.1),
    decreases i,
{
    let t = s.update(i, e);
    if i == 0 {
        assert(t.drop_first() =~= s.drop_first());
        assert(assoc_map(t) == assoc_map(t.drop_first()).insert(t[0].0@, t[0].1));
        assert(assoc_map(s) == assoc_map(s.drop_first()).insert(s[0].0@, s[0].1));
        assert(assoc_map(t) =~= assoc_map(s).insert(e.0@, e.1));
    } else {
        assert(t.drop_first() =~= s.drop_first().update(i - 1, e));
        lemma_assoc_update_first(s.drop_first(), i - 1, e);
        assert(assoc_map(t) == assoc_map(t.drop_first()).insert(t[0].0@, t[0].1));
        assert(assoc_map(s) == assoc_map(s.drop_first()).insert(s[0].0@, s[0].1));
        assert(t[0] == s[0]);
        assert(s[0].0@ != e.0@);
        assert(assoc_map(t) =~= assoc_map(s).insert(e.0@, e.1));
    }
}

/// Appending an entry for an absent key is `insert` on the map.
proof fn lemma_assoc_push(s: Seq<(String, i64)>, e: (String, i64))
    requires
        forall|j: int| 0 <= j < s.len() ==> s[j].0@ != e.0@,
    ensures
        assoc_map(s.push(e)) == assoc_map(s).insert(e.0@, e.1),
    decreases s.len(),
{
    let t = s.push(e);
    if s.len() == 0 {
        assert(t.drop_first() =~= Seq::<(String, i64)>::empty());
        assert(assoc_map(t.drop_first()) == Map::<Seq<char>, i64>::empty());
        assert(t[0] == e);
        assert(assoc_map(t) == assoc_map(t.drop_first()).insert(t[0].0@, t[0].1));
        assert(assoc_map(t) =~= assoc_map(s).insert(e.0@, e.1));
    } else {
        assert(t.drop_first() =~= s.drop_first().push(e));
        lemma_assoc_push(s.drop_first(), e);
        assert(assoc_map(t) == assoc_map(t.drop_first()).insert(t[0].0@, t[0].1));
        assert(assoc_map(s) == assoc_map(s.drop_first()).insert(s[0].0@, s[0].1));
        assert(t[0] == s[0]);
        assert(s[0].0@ != e.0@);
        assert(assoc_map(t) =~= assoc_map(s).insert(e.0@, e.1));
    }
}

} // verus!
