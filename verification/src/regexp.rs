//! A pattern-matching engine over printable ASCII.
//!
//! `Fsm::compile` turns a pattern built from literal characters and the
//! operators `.` `$` `*` `+` `?` into a dense transition table (one column
//! per state), and `Fsm::match_str` walks that table over an input string.
//! Column 0 is the reject state; the index one past the last column is the
//! implicit accept state.

use vstd::prelude::*;

verus! {

use vstd::utf8::is_ascii_chars;

/// Number of transition slots in one column: the 128 ASCII codes, two unused
/// padding slots, and the end-of-input pseudo-symbol.
pub const FSM_COLUMN_SIZE: usize = 130;

/// Slot index reserved for the pseudo-symbol "the input has ended".
pub const FSM_LINEEND: usize = 129;

/// One transition: the state to enter, and how many input characters the step
/// consumes (always 0 or 1).
#[derive(Clone, Copy, Debug)]
pub struct FsmElement {
    pub next: usize,
    pub offset: usize,
}

impl View for FsmElement {
    type V = (nat, nat);

    open spec fn view(&self) -> (nat, nat) {
        (self.next as nat, self.offset as nat)
    }
}

impl FsmElement {
    fn new(next: usize, offset: usize) -> (r: Self)
        ensures
            r@ == (next as nat, offset as nat),
    {
        Self { next, offset }
    }
}

/// One state's full transition table, indexed by character code.
struct FsmColumn {
    ts: Vec<FsmElement>,
}

impl View for FsmColumn {
    type V = Seq<(nat, nat)>;

    closed spec fn view(&self) -> Seq<(nat, nat)> {
        self.ts@.map_values(|e: FsmElement| e@)
    }
}

/// The column every slot of which is the reject transition `(0, 0)`.
pub open spec fn reject_col() -> Seq<(nat, nat)> {
    Seq::new(FSM_COLUMN_SIZE as nat, |j: int| (0nat, 0nat))
}

/// The column of a literal character: only the slot of `c` steps forward.
pub open spec fn lit_col(c: char, target: nat) -> Seq<(nat, nat)> {
    Seq::new(
        FSM_COLUMN_SIZE as nat,
        |j: int| if j == c as int { (target, 1nat) } else { (0nat, 0nat) },
    )
}

/// The column of `.`: every printable ASCII code (32..=126) steps forward.
pub open spec fn dot_col(target: nat) -> Seq<(nat, nat)> {
    Seq::new(
        FSM_COLUMN_SIZE as nat,
        |j: int| if 32 <= j <= 126 { (target, 1nat) } else { (0nat, 0nat) },
    )
}

/// The column of `$`: only the end-of-input pseudo-symbol steps forward.
pub open spec fn dollar_col(target: nat) -> Seq<(nat, nat)> {
    Seq::new(
        FSM_COLUMN_SIZE as nat,
        |j: int| if j == FSM_LINEEND as int { (target, 1nat) } else { (0nat, 0nat) },
    )
}

/// The in-place rewrite `*` performs on the last column, whose index is
/// `n - 1` in an automaton of `n` columns: slots that stepped past the column
/// become a consuming self-loop, all others fall through without consuming.
pub open spec fn star_col(col: Seq<(nat, nat)>, n: nat) -> Seq<(nat, nat)> {
    col.map_values(|t: (nat, nat)| if t.0 == n { ((n - 1) as nat, 1nat) } else { (n, 0nat) })
}

/// The column `+` appends (a rewritten clone of the column at index `n - 1`,
/// itself placed at index `n`): slots that do not point at index `n` fall
/// through without consuming; the cloned forward slots become a consuming
/// self-loop at index `n`.
pub open spec fn plus_col(col: Seq<(nat, nat)>, n: nat) -> Seq<(nat, nat)> {
    col.map_values(|t: (nat, nat)| if t.0 != n { ((n + 1) as nat, 0nat) } else { t })
}

/// The in-place rewrite `?` performs on the last column (index `n - 1`):
/// slots that do not step past the column fall through without consuming.
pub open spec fn quest_col(col: Seq<(nat, nat)>, n: nat) -> Seq<(nat, nat)> {
    col.map_values(|t: (nat, nat)| if t.0 != n { (n, 0nat) } else { t })
}

/// Whether `c` is one of the three postfix operators that rewrite an existing
/// column instead of standing for a character of their own.
pub open spec fn is_postfix_op(c: char) -> bool {
    c == '*' || c == '+' || c == '?'
}

/// How one pattern character transforms the automaton built so far.
pub open spec fn compile_step(a: Seq<Seq<(nat, nat)>>, c: char) -> Seq<Seq<(nat, nat)>> {
    let n = a.len();
    if c == '$' {
        a.push(dollar_col((n + 1) as nat))
    } else if c == '.' {
        a.push(dot_col((n + 1) as nat))
    } else if c == '*' {
        a.update(n - 1, star_col(a.last(), n))
    } else if c == '+' {
        a.push(plus_col(a.last(), n))
    } else if c == '?' {
        a.update(n - 1, quest_col(a.last(), n))
    } else {
        a.push(lit_col(c, (n + 1) as nat))
    }
}

/// The automaton of a whole pattern: the reject column, then one step per
/// pattern character, left to right.
pub open spec fn spec_compile(p: Seq<char>) -> Seq<Seq<(nat, nat)>>
    decreases p.len(),
{
    if p.len() == 0 {
        seq![reject_col()]
    } else {
        compile_step(spec_compile(p.drop_last()), p.last())
    }
}

/// A pattern compiles iff no postfix operator is applied while only the
/// reject column exists, i.e. iff `*`, `+`, `?` never stand where no
/// preceding construct has appended a column.
pub open spec fn spec_compile_ok(p: Seq<char>) -> bool
    decreases p.len(),
{
    if p.len() == 0 {
        true
    } else {
        spec_compile_ok(p.drop_last()) && (is_postfix_op(p.last())
            ==> spec_compile(p.drop_last()).len() > 1)
    }
}

/// Structural soundness of a table: at least the reject column exists, every
/// column has a full set of slots, every transition stays within the table
/// (the implicit accept index included) and consumes at most one character.
pub open spec fn table_wf(a: Seq<Seq<(nat, nat)>>) -> bool {
    &&& a.len() >= 1
    &&& forall|i: int| 0 <= i < a.len() ==> (#[trigger] a[i]).len() == FSM_COLUMN_SIZE as nat
    &&& forall|i: int, j: int|
        0 <= i < a.len() && 0 <= j < FSM_COLUMN_SIZE as nat ==> {
            let t = #[trigger] a[i][j];
            t.0 <= a.len() + 1 && t.1 <= 1
        }
}

/// Progress: a non-consuming transition out of column `i` either rejects or
/// moves strictly forward.  Every table a single postfix operator can build
/// has this property, and together with `table_wf` it bounds the length of
/// every match run.  Stacked operators (`a?+`) can break it; the matcher
/// therefore carries an explicit step budget and rejects when the budget is
/// spent, which `lemma_run_fuel_enough` shows never happens on a table with
/// this property.
pub open spec fn table_progress(a: Seq<Seq<(nat, nat)>>) -> bool {
    forall|i: int, j: int|
        0 <= i < a.len() && 0 <= j < FSM_COLUMN_SIZE as nat ==> {
            let t = #[trigger] a[i][j];
            t.1 == 0 ==> t.0 == 0 || t.0 > i
        }
}

/// The run of the matcher from a given state and input position, allowed at
/// most `fuel` further table steps: walk the table while the state is live
/// and input remains; then, if the input ran out on a live state, take the
/// end-of-input transition once; accept iff the state reached is the accept
/// index (one past the last column) or beyond.  A spent budget rejects.
pub open spec fn run_fuel(
    a: Seq<Seq<(nat, nat)>>,
    input: Seq<char>,
    state: int,
    ptr: int,
    fuel: nat,
) -> bool
    decreases fuel,
{
    if state <= 0 {
        false
    } else if state >= a.len() || ptr >= input.len() {
        (if state < a.len() {
            a[state][FSM_LINEEND as int].0 as int
        } else {
            state
        }) >= a.len()
    } else if fuel == 0 {
        false
    } else {
        let t = a[state][input[ptr] as int];
        run_fuel(a, input, t.0 as int, ptr + t.1, (fuel - 1) as nat)
    }
}

/// The step budget `match_str` grants a run: enough, on any table with the
/// progress property, for every run to finish on its own.
pub open spec fn match_fuel(a: Seq<Seq<(nat, nat)>>, input: Seq<char>) -> nat {
    (input.len() + 1) * (a.len() + 1)
}

/// Whether the automaton `a` accepts `input`: the budgeted run started in
/// state 1 at the first input character.
pub open spec fn spec_matches(a: Seq<Seq<(nat, nat)>>, input: Seq<char>) -> bool {
    run_fuel(a, input, 1, 0, match_fuel(a, input))
}

/// The error `compile` reports when `*`, `+` or `?` stands where no
/// preceding construct has appended a column.
#[derive(Clone, Copy, Debug, PartialEq, Eq, Structural)]
pub enum CompileError {
    DanglingOperator,
}

/// A pattern keeps every prefix compilable: `spec_compile_ok` holds of a
/// pattern only if it holds of each of its prefixes.
pub proof fn lemma_ok_prefix(p: Seq<char>, j: int)
    requires
        0 <= j <= p.len(),
        spec_compile_ok(p),
    ensures
        spec_compile_ok(p.take(j)),
    decreases p.len(),
{
    if j == p.len() {
        assert(p.take(j) =~= p);
    } else {
        lemma_ok_prefix(p.drop_last(), j);
        assert(p.drop_last().take(j) =~= p.take(j));
    }
}

/// Every table `spec_compile` builds is structurally sound.
pub proof fn lemma_spec_compile_wf(p: Seq<char>)
    ensures
        table_wf(spec_compile(p)),
    decreases p.len(),
{
    if p.len() == 0 {
        assert(spec_compile(p) == seq![reject_col()]);
        assert(reject_col().len() == FSM_COLUMN_SIZE as nat);
        assert forall|j: int| 0 <= j < FSM_COLUMN_SIZE as nat implies
            reject_col()[j].0 <= 2 && reject_col()[j].1 <= 1 by {}
    } else {
        lemma_spec_compile_wf(p.drop_last());
        let a = spec_compile(p.drop_last());
        let c = p.last();
        let n = a.len();
        let b = compile_step(a, c);
        if c == '*' || c == '?' {
            let col = if c == '*' {
                star_col(a.last(), n)
            } else {
                quest_col(a.last(), n)
            };
            assert(col.len() == FSM_COLUMN_SIZE as nat);
            assert(b =~= a.update(n - 1, col));
            assert forall|i: int, j: int|
                0 <= i < b.len() && 0 <= j < FSM_COLUMN_SIZE as nat implies {
                    let t = #[trigger] b[i][j];
                    t.0 <= b.len() + 1 && t.1 <= 1
                } by {
                if i != n - 1 {
                    assert(b[i] == a[i]);
                }
            }
        } else {
            let col = if c == '$' {
                dollar_col((n + 1) as nat)
            } else if c == '.' {
                dot_col((n + 1) as nat)
            } else if c == '+' {
                plus_col(a.last(), n)
            } else {
                lit_col(c, (n + 1) as nat)
            };
            assert(col.len() == FSM_COLUMN_SIZE as nat);
            assert(b =~= a.push(col));
            assert forall|i: int, j: int|
                0 <= i < b.len() && 0 <= j < FSM_COLUMN_SIZE as nat implies {
                    let t = #[trigger] b[i][j];
                    t.0 <= b.len() + 1 && t.1 <= 1
                } by {
                if i < n {
                    assert(b[i] == a[i]);
                    assert(a[i][j].0 <= a.len() + 1);
                } else {
                    assert(b[i] == col);
                }
            }
        }
    }
}

/// A compiled automaton: an ordered sequence of columns.  Column 0 is the
/// reject state, column 1 the start state, and the index one past the last
/// column the implicit accept state.
pub struct Fsm {
    cs: Vec<FsmColumn>,
}

impl View for Fsm {
    type V = Seq<Seq<(nat, nat)>>;

    closed spec fn view(&self) -> Seq<Seq<(nat, nat)>> {
        self.cs@.map_values(|c: FsmColumn| c@)
    }
}

impl FsmColumn {
    fn new() -> (r: Self)
        ensures
            r@ == reject_col(),
    {
        let mut ts: Vec<FsmElement> = Vec::new();
        while ts.len() < FSM_COLUMN_SIZE
            invariant
                ts@.len() <= FSM_COLUMN_SIZE as nat,
                forall|j: int| 0 <= j < ts@.len() ==> (#[trigger] ts@[j])@ == (0nat, 0nat),
            decreases FSM_COLUMN_SIZE - ts.len(),
        {
            ts.push(FsmElement::new(0, 0));
        }
        let r = Self { ts };
        proof {
            assert forall|j: int| 0 <= j < r@.len() implies r@[j] == (0nat, 0nat) by {
                assert(r@[j] == r.ts@[j]@);
            }
            assert(r@ =~= reject_col());
        }
        r
    }

    /// Set every slot whose index lies in `lo..hi` to `(state, offset)`.
    fn fill_range(&mut self, lo: usize, hi: usize, state: usize, offset: usize)
        requires
            lo <= hi,
            hi <= old(self)@.len(),
        ensures
            final(self)@.len() == old(self)@.len(),
            forall|j: int| 0 <= j < old(self)@.len() ==> #[trigger] final(self)@[j]
                == if lo <= j < hi { (state as nat, offset as nat) } else { old(self)@[j] },
    {
        let mut i = lo;
        while i < hi
            invariant
                lo <= i <= hi,
                hi <= self.ts@.len(),
                self.ts@.len() == old(self)@.len(),
                forall|j: int| 0 <= j < self.ts@.len() ==> (#[trigger] self.ts@[j])@
                    == if lo <= j < i { (state as nat, offset as nat) } else { old(self)@[j] },
            decreases hi - i,
        {
            let e = FsmElement::new(state, offset);
            self.ts[i] = e;
            i += 1;
        }
        proof {
            assert forall|j: int| 0 <= j < old(self)@.len() implies #[trigger] self@[j]
                == if lo <= j < hi { (state as nat, offset as nat) } else { old(self)@[j] } by {
                assert(self@[j] == self.ts@[j]@);
            }
        }
    }

    /// The column `*` leaves in place of `col`, the last column of a table of
    /// `n` columns.
    fn star_rewrite(col: &FsmColumn, n: usize) -> (r: FsmColumn)
        requires
            1 <= n < usize::MAX,
            col@.len() == FSM_COLUMN_SIZE as nat,
        ensures
            r@ == star_col(col@, n as nat),
    {
        let mut ts: Vec<FsmElement> = Vec::new();
        let mut j: usize = 0;
        while j < FSM_COLUMN_SIZE
            invariant
                j <= FSM_COLUMN_SIZE,
                1 <= n < usize::MAX,
                col@.len() == FSM_COLUMN_SIZE as nat,
                ts@.len() == j as nat,
                forall|k: int| 0 <= k < j ==> (#[trigger] ts@[k])@
                    == star_col(col@, n as nat)[k],
            decreases FSM_COLUMN_SIZE - j,
        {
            proof {
                assert(col@[j as int] == col.ts@[j as int]@);
            }
            let t = col.ts[j];
            let e = if t.next == n {
                FsmElement::new(n - 1, 1)
            } else {
                FsmElement::new(n, 0)
            };
            ts.push(e);
            j += 1;
        }
        let r = FsmColumn { ts };
        proof {
            assert forall|k: int| 0 <= k < r@.len() implies r@[k]
                == star_col(col@, n as nat)[k] by {
                assert(r@[k] == r.ts@[k]@);
            }
            assert(r@ =~= star_col(col@, n as nat));
        }
        r
    }

    /// The column `+` appends: a rewritten clone of `col`, the last column of
    /// a table of `n` columns.
    fn plus_rewrite(col: &FsmColumn, n: usize) -> (r: FsmColumn)
        requires
            1 <= n < usize::MAX,
            col@.len() == FSM_COLUMN_SIZE as nat,
        ensures
            r@ == plus_col(col@, n as nat),
    {
        let mut ts: Vec<FsmElement> = Vec::new();
        let mut j: usize = 0;
        while j < FSM_COLUMN_SIZE
            invariant
                j <= FSM_COLUMN_SIZE,
                1 <= n < usize::MAX,
                col@.len() == FSM_COLUMN_SIZE as nat,
                ts@.len() == j as nat,
                forall|k: int| 0 <= k < j ==> (#[trigger] ts@[k])@
                    == plus_col(col@, n as nat)[k],
            decreases FSM_COLUMN_SIZE - j,
        {
            proof {
                assert(col@[j as int] == col.ts@[j as int]@);
            }
            let t = col.ts[j];
            let e = if t.next != n {
                FsmElement::new(n + 1, 0)
            } else {
                t
            };
            ts.push(e);
            j += 1;
        }
        let r = FsmColumn { ts };
        proof {
            assert forall|k: int| 0 <= k < r@.len() implies r@[k]
                == plus_col(col@, n as nat)[k] by {
                assert(r@[k] == r.ts@[k]@);
            }
            assert(r@ =~= plus_col(col@, n as nat));
        }
        r
    }

    /// The column `?` leaves in place of `col`, the last column of a table of
    /// `n` columns.
    fn quest_rewrite(col: &FsmColumn, n: usize) -> (r: FsmColumn)
        requires
            1 <= n < usize::MAX,
            col@.len() == FSM_COLUMN_SIZE as nat,
        ensures
            r@ == quest_col(col@, n as nat),
    {
        let mut ts: Vec<FsmElement> = Vec::new();
        let mut j: usize = 0;
        while j < FSM_COLUMN_SIZE
            invariant
                j <= FSM_COLUMN_SIZE,
                1 <= n < usize::MAX,
                col@.len() == FSM_COLUMN_SIZE as nat,
                ts@.len() == j as nat,
                forall|k: int| 0 <= k < j ==> (#[trigger] ts@[k])@
                    == quest_col(col@, n as nat)[k],
            decreases FSM_COLUMN_SIZE - j,
        {
            proof {
                assert(col@[j as int] == col.ts@[j as int]@);
            }
            let t = col.ts[j];
            let e = if t.next != n {
                FsmElement::new(n, 0)
            } else {
                t
            };
            ts.push(e);
            j += 1;
        }
        let r = FsmColumn { ts };
        proof {
            assert forall|k: int| 0 <= k < r@.len() implies r@[k]
                == quest_col(col@, n as nat)[k] by {
                assert(r@[k] == r.ts@[k]@);
            }
            assert(r@ =~= quest_col(col@, n as nat));
        }
        r
    }
}

impl Fsm {
    /// Structural soundness, maintained by every value of the type.
    #[verifier::type_invariant]
    closed spec fn structurally_sound(self) -> bool {
        table_wf(self@)
    }

    /// Compile a pattern into its transition table: one step per pattern
    /// character, left to right.  The result is exactly `spec_compile` of the
    /// pattern; the one failure, reported rather than left undefined, is a
    /// postfix operator with no preceding construct to act on.
    pub fn compile(src: &str) -> (r: Result<Fsm, CompileError>)
        requires
            src.is_ascii(),
            src@.len() + 2 <= usize::MAX,
        ensures
            match r {
                Ok(fsm) => spec_compile_ok(src@) && fsm@ == spec_compile(src@),
                Err(e) => !spec_compile_ok(src@) && e == CompileError::DanglingOperator,
            },
    {
        let n_chars = src.unicode_len();
        let mut cs: Vec<FsmColumn> = Vec::new();
        cs.push(FsmColumn::new());
        proof {
            assert(cs@.map_values(|co: FsmColumn| co@) =~= seq![reject_col()]);
            assert(src@.take(0) =~= Seq::<char>::empty());
        }
        let mut i: usize = 0;
        while i < n_chars
            invariant
                src.is_ascii(),
                src@.len() + 2 <= usize::MAX,
                n_chars as nat == src@.len(),
                i <= n_chars,
                cs@.map_values(|co: FsmColumn| co@) == spec_compile(src@.take(i as int)),
                spec_compile_ok(src@.take(i as int)),
                1 <= cs@.len() <= i + 1,
                forall|k: int| 0 <= k < cs@.len() ==> (#[trigger] cs@[k])@.len()
                    == FSM_COLUMN_SIZE as nat,
            decreases n_chars - i,
        {
            let ghost prev_v = cs@.map_values(|co: FsmColumn| co@);
            let c = src.get_char(i);
            let n = cs.len();
            proof {
                assert(src@.take(i + 1).drop_last() =~= src@.take(i as int));
                assert(src@.take(i + 1).last() == src@[i as int]);
                assert(prev_v.len() == cs@.len());
            }
            if c == '$' {
                let mut col = FsmColumn::new();
                proof {
                    assert(col@.len() == col.ts@.len());
                }
                let ghost before = col.ts@;
                col.ts[FSM_LINEEND] = FsmElement::new(n + 1, 1);
                proof {
                    assert forall|k: int| 0 <= k < col@.len() implies #[trigger] col@[k]
                        == dollar_col((n + 1) as nat)[k] by {
                        assert(col@[k] == col.ts@[k]@);
                        if k != FSM_LINEEND as int {
                            assert(col.ts@[k] == before[k]);
                            assert(before[k]@ == reject_col()[k]);
                        }
                    }
                    assert(col@ =~= dollar_col((n + 1) as nat));
                }
                cs.push(col);
                proof {
                    assert(cs@.map_values(|co: FsmColumn| co@)
                        =~= spec_compile(src@.take(i + 1)));
                }
            } else if c == '.' {
                let mut col = FsmColumn::new();
                proof {
                    assert(col@.len() == col.ts@.len());
                }
                col.fill_range(32, 127, n + 1, 1);
                proof {
                    assert(col@ =~= dot_col((n + 1) as nat));
                }
                cs.push(col);
                proof {
                    assert(cs@.map_values(|co: FsmColumn| co@)
                        =~= spec_compile(src@.take(i + 1)));
                }
            } else if c == '*' || c == '+' || c == '?' {
                if n <= 1 {
                    proof {
                        if spec_compile_ok(src@) {
                            lemma_ok_prefix(src@, i + 1);
                        }
                    }
                    return Err(CompileError::DanglingOperator);
                }
                proof {
                    assert(cs@[n - 1]@ == prev_v[n - 1]);
                    assert(prev_v[n - 1] == prev_v.last());
                }
                if c == '+' {
                    let newcol = FsmColumn::plus_rewrite(&cs[n - 1], n);
                    cs.push(newcol);
                    proof {
                        assert(cs@.map_values(|co: FsmColumn| co@)
                            =~= spec_compile(src@.take(i + 1)));
                    }
                } else {
                    let oldcol = cs.pop().unwrap();
                    let newcol = if c == '*' {
                        FsmColumn::star_rewrite(&oldcol, n)
                    } else {
                        FsmColumn::quest_rewrite(&oldcol, n)
                    };
                    cs.push(newcol);
                    proof {
                        assert(cs@.map_values(|co: FsmColumn| co@)
                            =~= prev_v.update(n - 1, if src@[i as int] == '*' {
                                star_col(prev_v.last(), prev_v.len())
                            } else {
                                quest_col(prev_v.last(), prev_v.len())
                            }));
                        assert(cs@.map_values(|co: FsmColumn| co@)
                            == spec_compile(src@.take(i + 1)));
                    }
                }
            } else {
                let mut col = FsmColumn::new();
                proof {
                    assert(col@.len() == col.ts@.len());
                    assert(src@[i as int] as int <= 127);
                }
                let code = c as usize;
                let ghost before = col.ts@;
                col.ts[code] = FsmElement::new(n + 1, 1);
                proof {
                    assert forall|k: int| 0 <= k < col@.len() implies #[trigger] col@[k]
                        == lit_col(src@[i as int], (n + 1) as nat)[k] by {
                        assert(col@[k] == col.ts@[k]@);
                        if k != code as int {
                            assert(col.ts@[k] == before[k]);
                            assert(before[k]@ == reject_col()[k]);
                        }
                    }
                    assert(col@ =~= lit_col(src@[i as int], (n + 1) as nat));
                }
                cs.push(col);
                proof {
                    assert(cs@.map_values(|co: FsmColumn| co@)
                        =~= spec_compile(src@.take(i + 1)));
                }
            }
            i += 1;
        }
        proof {
            assert(src@.take(n_chars as int) =~= src@);
            lemma_spec_compile_wf(src@);
        }
        Ok(Fsm { cs })
    }

    /// Walk the table over `input` from the start state, within the step
    /// budget `match_fuel` grants, and decide acceptance.
    pub fn match_str(&self, input: &str) -> (r: bool)
        requires
            input.is_ascii(),
            input@.len() < usize::MAX,
        ensures
            r == spec_matches(self@, input@),
    {
        proof {
            use_type_invariant(self);
        }
        let n_chars = input.unicode_len();
        let n_cols = self.cs.len();
        proof {
            assert(n_cols as nat == self@.len());
        }
        let mut state: usize = 1;
        let mut ptr: usize = 0;
        proof {
            let a = n_chars as u128;
            let b = n_cols as u128;
            assert((a + 1) * (b + 1) <= u128::MAX) by (nonlinear_arith)
                requires
                    a <= 0xFFFF_FFFF_FFFF_FFFEu128,
                    b <= 0xFFFF_FFFF_FFFF_FFFFu128,
            {}
        }
        let mut fuel: u128 = (n_chars as u128 + 1) * (n_cols as u128 + 1);
        proof {
            assert(fuel as nat == match_fuel(self@, input@));
        }
        while state > 0 && state < n_cols && ptr < n_chars
            invariant
                table_wf(self@),
                input.is_ascii(),
                n_chars as nat == input@.len(),
                n_cols as nat == self@.len(),
                n_cols == self.cs.len(),
                state <= n_cols + 1,
                ptr <= n_chars,
                run_fuel(self@, input@, state as int, ptr as int, fuel as nat)
                    == spec_matches(self@, input@),
            decreases fuel,
        {
            if fuel == 0 {
                return false;
            }
            let c = input.get_char(ptr);
            let code = c as usize;
            proof {
                assert(input@[ptr as int] as int <= 127);
                assert(self@[state as int] == self.cs@[state as int]@);
                assert(self@[state as int].len() == FSM_COLUMN_SIZE as nat);
                assert(self.cs@[state as int]@[code as int]
                    == self.cs@[state as int].ts@[code as int]@);
            }
            let t = self.cs[state].ts[code];
            proof {
                let tt = self@[state as int][code as int];
                assert(tt.0 <= self@.len() + 1);
                assert(run_fuel(self@, input@, state as int, ptr as int, fuel as nat)
                    == run_fuel(self@, input@, tt.0 as int, ptr + tt.1, (fuel - 1) as nat));
            }
            state = t.next;
            ptr = ptr + t.offset;
            fuel = fuel - 1;
        }
        if state == 0 {
            return false;
        }
        if state < n_cols {
            proof {
                assert(self@[state as int] == self.cs@[state as int]@);
                assert(self.cs@[state as int]@[FSM_LINEEND as int]
                    == self.cs@[state as int].ts@[FSM_LINEEND as int]@);
            }
            let t = self.cs[state].ts[FSM_LINEEND];
            return t.next >= n_cols;
        }
        true
    }
}

} // verus!
