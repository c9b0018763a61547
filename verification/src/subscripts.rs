//! Einsum subscripts with tensor provenance, e.g. `ij,jk->ik | arg0 arg1 -> out`.
//!
//! A [`Subscripts`] value is one contraction step: an ordered sequence of
//! input [`Subscript`]s plus one output. The engine infers implicit outputs,
//! computes the contraction indices (the labels that must be summed away),
//! and factorizes a step along one such label into two simpler steps.

use vstd::prelude::*;
use vstd::set_lib::lemma_len_subset;

use crate::labels::{
    char_lt, contains_label, count_in, insert_label, lemma_count_in_contains, lemma_count_in_push,
    lemma_strictly_sorted_count, lemma_strictly_sorted_same_set, strictly_sorted,
};
use crate::parser::{flat, notation_model, parse_raw_subscripts, RawSubscript, RawSubscriptModel,
    RawSubscripts, RawSubscriptsModel};

verus! {

/// Which tensor a subscript belongs to.
#[derive(Debug, PartialEq, Eq, PartialOrd, Ord, Hash, Clone, Copy, Structural)]
pub enum Position {
    /// The tensor the user passes as the n-th argument.
    User(usize),
    /// The tensor created by the engine in its n-th factorization step.
    Intermidiate(usize),
}

/// Issues fresh names for intermediate tensors: a counter of how many
/// intermediates exist, advanced on every issue and never reused.
#[derive(Debug, PartialEq, Eq)]
pub struct Namespace {
    last: usize,
}

impl Clone for Namespace {
    /// A clone continues from the same counter value.
    fn clone(&self) -> (r: Self)
        ensures
            r@ == self@,
    {
        Namespace { last: self.last }
    }
}

impl View for Namespace {
    type V = nat;

    closed spec fn view(&self) -> nat {
        self.last as nat
    }
}

impl Namespace {
    /// Create a new namespace with no identifier issued yet.
    pub fn init() -> (r: Self)
        ensures
            r@ == 0,
    {
        Namespace { last: 0 }
    }

    /// Issue a new identifier, strictly greater than every one issued before.
    pub fn new(&mut self) -> (p: Position)
        requires
            old(self)@ < usize::MAX,
        ensures
            final(self)@ == old(self)@ + 1,
            p == Position::Intermidiate(old(self)@ as usize),
    {
        let pos = Position::Intermidiate(self.last);
        self.last += 1;
        pos
    }
}

/// One tensor's subscript: its raw label sequence plus its provenance.
#[derive(Debug, PartialEq, Eq, Hash)]
pub struct Subscript {
    raw: RawSubscript,
    position: Position,
}

/// The mathematical value of a [`Subscript`].
pub struct SubscriptModel {
    pub raw: RawSubscriptModel,
    pub position: Position,
}

impl View for Subscript {
    type V = SubscriptModel;

    closed spec fn view(&self) -> SubscriptModel {
        SubscriptModel { raw: self.raw@, position: self.position }
    }
}

impl DeepView for Subscript {
    type V = SubscriptModel;

    open spec fn deep_view(&self) -> SubscriptModel {
        self.view()
    }
}

impl Clone for Subscript {
    /// A clone denotes the same subscript.
    fn clone(&self) -> (r: Self)
        ensures
            r@ == self@,
    {
        Subscript { raw: self.raw.clone(), position: self.position }
    }
}

impl Subscript {
    /// The raw label sequence.
    pub fn raw(&self) -> (r: &RawSubscript)
        ensures
            r@ == self@.raw,
    {
        &self.raw
    }

    /// The provenance tag.
    pub fn position(&self) -> (r: &Position)
        ensures
            *r == self@.position,
    {
        &self.position
    }

    /// The flattened labels: ellipsis boundaries are discarded.
    pub fn indices(&self) -> (r: Vec<char>)
        ensures
            r@ == flat(self@.raw),
    {
        match &self.raw {
            RawSubscript::Indices(v) => {
                let w = v.clone();
                assert(w@ =~= v@);
                w
            },
            RawSubscript::Ellipsis { start, end } => {
                let mut w = start.clone();
                assert(w@ =~= start@);
                let mut j: usize = 0;
                while j < end.len()
                    invariant
                        0 <= j <= end@.len(),
                        w@ =~= start@ + end@.take(j as int),
                    decreases end@.len() - j,
                {
                    w.push(end[j]);
                    assert(w@ =~= start@ + end@.take(j + 1));
                    j += 1;
                }
                assert(w@ =~= start@ + end@);
                w
            },
        }
    }
}

/// What can go wrong while building or factorizing subscripts.
#[derive(Debug, PartialEq, Eq, Clone, Copy, Structural)]
pub enum EinsumError {
    /// The notation string is malformed.
    Parse,
    /// `factorize` was invoked with a label that is not a contraction index.
    UnknownIndex(char),
}

/// How often the label `c` occurs across the flattened inputs.
pub open spec fn count_all(inputs: Seq<SubscriptModel>, c: char) -> nat
    decreases inputs.len(),
{
    if inputs.len() == 0 {
        0
    } else {
        count_all(inputs.drop_last(), c) + count_in(flat(inputs.last().raw), c)
    }
}

/// Counting distributes over concatenation of input lists.
pub proof fn lemma_count_all_concat(a: Seq<SubscriptModel>, b: Seq<SubscriptModel>, c: char)
    ensures
        count_all(a + b, c) == count_all(a, c) + count_all(b, c),
    decreases b.len(),
{
    if b.len() == 0 {
        assert(a + b =~= a);
    } else {
        assert((a + b).drop_last() =~= a + b.drop_last());
        assert((a + b).last() == b.last());
        lemma_count_all_concat(a, b.drop_last(), c);
    }
}

/// Counting one more input.
pub proof fn lemma_count_all_push(s: Seq<SubscriptModel>, m: SubscriptModel, c: char)
    ensures
        count_all(s.push(m), c) == count_all(s, c) + count_in(flat(m.raw), c),
{
    assert(s.push(m).drop_last() =~= s);
}

/// One contraction step: an ordered sequence of inputs and one output.
/// The input order matters: it drives loop nesting downstream.
#[derive(Debug, PartialEq, Eq)]
pub struct Subscripts {
    /// Input subscripts, e.g. `ij` and `jk`.
    pub inputs: Vec<Subscript>,
    /// Output subscript, e.g. `ik`.
    pub output: Subscript,
}

impl Subscripts {
    /// The labels that must be summed away: those occurring in more than one
    /// position across the flattened inputs and absent from the output.
    pub open spec fn contraction_set(&self) -> Set<char> {
        Set::new(
            |c: char|
                count_all(self.inputs.deep_view(), c) > 1 && !flat(self.output@.raw).contains(c),
        )
    }
}

/// How often `c` occurs across the inputs, saturated at two: enough to tell
/// "absent", "exactly once" and "several times" apart.
fn count_index(inputs: &Vec<Subscript>, c: char) -> (r: u8)
    ensures
        (r == 0) == (count_all(inputs.deep_view(), c) == 0),
        (r == 1) == (count_all(inputs.deep_view(), c) == 1),
        (r == 2) == (count_all(inputs.deep_view(), c) >= 2),
{
    let ghost dv = inputs.deep_view();
    let mut r: u8 = 0;
    let mut i: usize = 0;
    while i < inputs.len()
        invariant
            0 <= i <= inputs@.len(),
            dv == inputs.deep_view(),
            dv.len() == inputs@.len(),
            r <= 2,
            r as nat == vstd::math::min(count_all(dv.take(i as int), c) as int, 2) as nat,
        decreases inputs@.len() - i,
    {
        let labels = inputs[i].indices();
        let ghost base = count_all(dv.take(i as int), c);
        let mut j: usize = 0;
        while j < labels.len()
            invariant
                0 <= j <= labels@.len(),
                labels@ == flat(dv[i as int].raw),
                i < dv.len(),
                base == count_all(dv.take(i as int), c),
                r <= 2,
                r as nat == vstd::math::min(
                    base + count_in(labels@.take(j as int), c) as int,
                    2,
                ) as nat,
            decreases labels@.len() - j,
        {
            proof {
                assert(labels@.take(j + 1) =~= labels@.take(j as int).push(labels@[j as int]));
                lemma_count_in_push(labels@.take(j as int), labels@[j as int], c);
            }
            if labels[j] == c && r < 2 {
                r += 1;
            }
            j += 1;
        }
        proof {
            assert(labels@.take(labels@.len() as int) =~= labels@);
            assert(dv.take(i + 1).drop_last() =~= dv.take(i as int));
            assert(dv.take(i + 1).last() == dv[i as int]);
        }
        i += 1;
    }
    proof {
        assert(dv.take(dv.len() as int) =~= dv);
    }
    r
}

/// All labels occurring across the inputs, in strictly ascending order.
fn gather_labels(inputs: &Vec<Subscript>) -> (r: Vec<char>)
    ensures
        strictly_sorted(r@),
        forall|c: char| r@.contains(c) <==> count_all(inputs.deep_view(), c) > 0,
{
    let ghost dv = inputs.deep_view();
    let mut r: Vec<char> = Vec::new();
    let mut i: usize = 0;
    while i < inputs.len()
        invariant
            0 <= i <= inputs@.len(),
            dv == inputs.deep_view(),
            dv.len() == inputs@.len(),
            strictly_sorted(r@),
            forall|c: char| r@.contains(c) <==> count_all(dv.take(i as int), c) > 0,
        decreases inputs@.len() - i,
    {
        let labels = inputs[i].indices();
        let mut j: usize = 0;
        while j < labels.len()
            invariant
                0 <= j <= labels@.len(),
                labels@ == flat(dv[i as int].raw),
                i < dv.len(),
                strictly_sorted(r@),
                forall|c: char|
                    r@.contains(c) <==> (count_all(dv.take(i as int), c) + count_in(
                        labels@.take(j as int),
                        c,
                    ) > 0),
            decreases labels@.len() - j,
        {
            insert_label(&mut r, labels[j]);
            proof {
                assert forall|c: char|
                    r@.contains(c) <==> (count_all(dv.take(i as int), c) + count_in(
                        labels@.take(j + 1),
                        c,
                    ) > 0) by {
                    assert(labels@.take(j + 1) =~= labels@.take(j as int).push(labels@[j as int]));
                    lemma_count_in_push(labels@.take(j as int), labels@[j as int], c);
                }
            }
            j += 1;
        }
        proof {
            assert(labels@.take(labels@.len() as int) =~= labels@);
            assert(dv.take(i + 1).drop_last() =~= dv.take(i as int));
            assert(dv.take(i + 1).last() == dv[i as int]);
        }
        i += 1;
    }
    proof {
        assert(dv.take(dv.len() as int) =~= dv);
    }
    r
}

impl Subscripts {
    /// The contraction indices, in strictly ascending order: exactly the
    /// members of [`Subscripts::contraction_set`].
    pub fn contraction_indices(&self) -> (r: Vec<char>)
        ensures
            strictly_sorted(r@),
            forall|c: char| r@.contains(c) <==> self.contraction_set().contains(c),
    {
        let all = gather_labels(&self.inputs);
        let out = self.output.indices();
        let mut r: Vec<char> = Vec::new();
        let mut i: usize = 0;
        while i < all.len()
            invariant
                0 <= i <= all@.len(),
                strictly_sorted(all@),
                forall|c: char| all@.contains(c) <==> count_all(self.inputs.deep_view(), c) > 0,
                out@ == flat(self.output@.raw),
                strictly_sorted(r@),
                forall|c: char|
                    r@.contains(c) <==> (all@.take(i as int).contains(c) && count_all(
                        self.inputs.deep_view(),
                        c,
                    ) > 1 && !out@.contains(c)),
                r@.len() > 0 && i < all@.len() ==> char_lt(r@.last(), all@[i as int]),
            decreases all@.len() - i,
        {
            let c = all[i];
            let ghost r0 = r@;
            proof {
                // the labels of the longer prefix, pointwise
                assert forall|d: char|
                    all@.take(i + 1).contains(d) <==> (all@.take(i as int).contains(d) || d
                        == c) by {
                    if all@.take(i + 1).contains(d) {
                        let k = choose|k: int|
                            0 <= k < all@.take(i + 1).len() && #[trigger] all@.take(i + 1)[k] == d;
                        if k < i {
                            assert(all@.take(i as int).contains(d));
                        }
                    }
                    if all@.take(i as int).contains(d) {
                        let k = choose|k: int|
                            0 <= k < all@.take(i as int).len() && #[trigger] all@.take(
                                i as int,
                            )[k] == d;
                        assert(all@.take(i + 1)[k] == d);
                    }
                    assert(all@.take(i + 1)[i as int] == c);
                }
            }
            if count_index(&self.inputs, c) == 2 && !contains_label(&out, c) {
                r.push(c);
                proof {
                    assert forall|d: char| r@.contains(d) <==> (r0.contains(d) || d == c) by {
                        if r@.contains(d) {
                            let k = choose|k: int| 0 <= k < r@.len() && r@[k] == d;
                            if k < r0.len() {
                                assert(r0[k] == d);
                            }
                        }
                        if r0.contains(d) {
                            let k = choose|k: int| 0 <= k < r0.len() && r0[k] == d;
                            assert(r@[k] == d);
                        }
                        assert(r@[r@.len() - 1] == c);
                    }
                    assert(strictly_sorted(r@)) by {
                        assert forall|p: int, q: int|
                            0 <= p < q < r@.len() implies char_lt(r@[p], r@[q]) by {
                            if q == r@.len() - 1 {
                                assert(r@[p] == r0[p] && r@[q] == c);
                                assert(char_lt(r0.last(), all@[i as int]));
                                if p < r0.len() - 1 {
                                    assert(char_lt(r0[p], r0[r0.len() - 1]));
                                }
                            } else {
                                assert(r@[p] == r0[p] && r@[q] == r0[q]);
                            }
                        }
                    }
                    assert forall|d: char|
                        r@.contains(d) <==> (all@.take(i + 1).contains(d) && count_all(
                            self.inputs.deep_view(),
                            d,
                        ) > 1 && !out@.contains(d)) by {
                        assert(r@.contains(d) <==> (r0.contains(d) || d == c));
                        assert(all@.take(i + 1).contains(d) <==> (all@.take(i as int).contains(d)
                            || d == c));
                        assert(r0.contains(d) <==> (all@.take(i as int).contains(d) && count_all(
                            self.inputs.deep_view(),
                            d,
                        ) > 1 && !out@.contains(d)));
                        if d == c {
                            assert(count_all(self.inputs.deep_view(), c) >= 2);
                            assert(!out@.contains(c));
                        }
                    }
                }
            } else {
                proof {
                    assert forall|d: char|
                        r@.contains(d) <==> (all@.take(i + 1).contains(d) && count_all(
                            self.inputs.deep_view(),
                            d,
                        ) > 1 && !out@.contains(d)) by {
                        if d != c {
                            assert(all@.take(i + 1).contains(d) <==> all@.take(i as int).contains(
                                d,
                            ));
                        }
                    }
                }
            }
            proof {
                if r@.len() > 0 && i + 1 < all@.len() {
                    assert(r@[r@.len() - 1] == r@.last() && r@.contains(r@.last()));
                    assert(all@.take(i + 1).contains(r@.last()));
                    let t = choose|t: int|
                        0 <= t < all@.take(i + 1).len() && #[trigger] all@.take(i + 1)[t]
                            == r@.last();
                    assert(all@[t] == r@.last() && t <= i);
                    if t < i + 1 {
                        assert(char_lt(all@[t], all@[i + 1]));
                    }
                }
            }
            i += 1;
        }
        proof {
            assert(all@.take(all@.len() as int) =~= all@);
            assert forall|c: char| r@.contains(c) <==> self.contraction_set().contains(c) by {
                if count_all(self.inputs.deep_view(), c) > 1 {
                    assert(all@.contains(c));
                }
            }
        }
        r
    }
}


/// The labels occurring exactly once across the inputs, in strictly ascending
/// order: the implicit-mode output labels.
fn lone_labels(inputs: &Vec<Subscript>) -> (r: Vec<char>)
    ensures
        strictly_sorted(r@),
        forall|c: char| r@.contains(c) <==> count_all(inputs.deep_view(), c) == 1,
{
    let all = gather_labels(inputs);
    let mut r: Vec<char> = Vec::new();
    let mut i: usize = 0;
    while i < all.len()
        invariant
            0 <= i <= all@.len(),
            strictly_sorted(all@),
            forall|c: char| all@.contains(c) <==> count_all(inputs.deep_view(), c) > 0,
            strictly_sorted(r@),
            forall|c: char|
                r@.contains(c) <==> (all@.take(i as int).contains(c) && count_all(
                    inputs.deep_view(),
                    c,
                ) == 1),
            r@.len() > 0 && i < all@.len() ==> char_lt(r@.last(), all@[i as int]),
        decreases all@.len() - i,
    {
        let c = all[i];
        let ghost r0 = r@;
        proof {
            assert forall|d: char|
                all@.take(i + 1).contains(d) <==> (all@.take(i as int).contains(d) || d == c) by {
                if all@.take(i + 1).contains(d) {
                    let k = choose|k: int|
                        0 <= k < all@.take(i + 1).len() && #[trigger] all@.take(i + 1)[k] == d;
                    if k < i {
                        assert(all@.take(i as int).contains(d));
                    }
                }
                if all@.take(i as int).contains(d) {
                    let k = choose|k: int|
                        0 <= k < all@.take(i as int).len() && #[trigger] all@.take(i as int)[k]
                            == d;
                    assert(all@.take(i + 1)[k] == d);
                }
                assert(all@.take(i + 1)[i as int] == c);
            }
        }
        if count_index(inputs, c) == 1 {
            r.push(c);
            proof {
                assert forall|d: char| r@.contains(d) <==> (r0.contains(d) || d == c) by {
                    if r@.contains(d) {
                        let k = choose|k: int| 0 <= k < r@.len() && r@[k] == d;
                        if k < r0.len() {
                            assert(r0[k] == d);
                        }
                    }
                    if r0.contains(d) {
                        let k = choose|k: int| 0 <= k < r0.len() && r0[k] == d;
                        assert(r@[k] == d);
                    }
                    assert(r@[r@.len() - 1] == c);
                }
                assert(strictly_sorted(r@)) by {
                    assert forall|p: int, q: int|
                        0 <= p < q < r@.len() implies char_lt(r@[p], r@[q]) by {
                        if q == r@.len() - 1 {
                            assert(r@[p] == r0[p] && r@[q] == c);
                            assert(char_lt(r0.last(), all@[i as int]));
                            if p < r0.len() - 1 {
                                assert(char_lt(r0[p], r0[r0.len() - 1]));
                            }
                        } else {
                            assert(r@[p] == r0[p] && r@[q] == r0[q]);
                        }
                    }
                }
                assert forall|d: char|
                    r@.contains(d) <==> (all@.take(i + 1).contains(d) && count_all(
                        inputs.deep_view(),
                        d,
                    ) == 1) by {
                    assert(r@.contains(d) <==> (r0.contains(d) || d == c));
                    if d == c {
                        assert(count_all(inputs.deep_view(), c) == 1);
                    }
                }
            }
        } else {
            proof {
                assert forall|d: char|
                    r@.contains(d) <==> (all@.take(i + 1).contains(d) && count_all(
                        inputs.deep_view(),
                        d,
                    ) == 1) by {
                    if d != c {
                        assert(all@.take(i + 1).contains(d) <==> all@.take(i as int).contains(d));
                    }
                }
            }
        }
        proof {
            if r@.len() > 0 && i + 1 < all@.len() {
                assert(r@[r@.len() - 1] == r@.last() && r@.contains(r@.last()));
                assert(all@.take(i + 1).contains(r@.last()));
                let t = choose|t: int|
                    0 <= t < all@.take(i + 1).len() && #[trigger] all@.take(i + 1)[t] == r@.last();
                assert(all@[t] == r@.last() && t <= i);
                if t < i + 1 {
                    assert(char_lt(all@[t], all@[i + 1]));
                }
            }
        }
        i += 1;
    }
    proof {
        assert(all@.take(all@.len() as int) =~= all@);
        assert forall|c: char|
            r@.contains(c) <==> count_all(inputs.deep_view(), c) == 1 by {
            if count_all(inputs.deep_view(), c) == 1 {
                assert(all@.contains(c));
            }
        }
    }
    r
}

/// An implicit-mode output: the labels occurring exactly once across the
/// inputs, as a plain ascending label list.
pub open spec fn implicit_output(out: RawSubscriptModel, inputs: Seq<SubscriptModel>) -> bool {
    match out {
        RawSubscriptModel::Indices(v) => strictly_sorted(v) && (forall|c: char|
            v.contains(c) <==> count_all(inputs, c) == 1),
        RawSubscriptModel::Ellipsis { start, end } => false,
    }
}

/// What construction from a parsed notation returns, given that `fresh` was
/// the next free intermediate identifier: the inputs in argument order with
/// `User` positions `0..n`, and the output tagged `Intermidiate(fresh)`,
/// either taken verbatim from the notation or inferred.
pub open spec fn from_raw_post(r: Subscripts, raw: RawSubscriptsModel, fresh: nat) -> bool {
    &&& r.inputs.deep_view().len() == raw.inputs.len()
    &&& forall|i: int|
        0 <= i < raw.inputs.len() ==> #[trigger] r.inputs.deep_view()[i] == (SubscriptModel {
            raw: raw.inputs[i],
            position: Position::User(i as usize),
        })
    &&& r.output@.position == Position::Intermidiate(fresh as usize)
    &&& match raw.output {
        Some(o) => r.output@.raw == o,
        None => implicit_output(r.output@.raw, r.inputs.deep_view()),
    }
}

impl Subscripts {
    /// Normalize a parsed notation into "explicit mode": tag the inputs with
    /// their argument positions and, if the notation has no explicit output,
    /// infer one: the labels occurring exactly once, reordered ascending.
    pub fn from_raw(names: &mut Namespace, raw: RawSubscripts) -> (r: Self)
        requires
            old(names)@ < usize::MAX,
        ensures
            final(names)@ == old(names)@ + 1,
            from_raw_post(r, raw@, old(names)@),
    {
        let mut inputs: Vec<Subscript> = Vec::new();
        let n = raw.inputs.len();
        let mut i: usize = 0;
        while i < n
            invariant
                0 <= i <= n == raw.inputs@.len(),
                inputs.deep_view().len() == i,
                forall|k: int|
                    0 <= k < i ==> #[trigger] inputs.deep_view()[k] == (SubscriptModel {
                        raw: raw.inputs@[k]@,
                        position: Position::User(k as usize),
                    }),
            decreases n - i,
        {
            let s = Subscript { raw: raw.inputs[i].clone(), position: Position::User(i) };
            proof {
                assert(s@ == (SubscriptModel {
                    raw: raw.inputs@[i as int]@,
                    position: Position::User(i as usize),
                }));
            }
            let ghost dv0 = inputs.deep_view();
            let ghost in0 = inputs@;
            inputs.push(s);
            proof {
                assert(inputs@[i as int] == s);
                assert(inputs.deep_view()[i as int] == s@);
                assert forall|k: int| 0 <= k < i implies #[trigger] inputs.deep_view()[k] == dv0[k] by {
                    assert(inputs@[k] == in0[k]);
                }
            }
            i += 1;
        }
        let position = names.new();
        match raw.output {
            Some(o) => Subscripts { inputs, output: Subscript { raw: o, position } },
            None => {
                let lone = lone_labels(&inputs);
                Subscripts {
                    inputs,
                    output: Subscript { raw: RawSubscript::Indices(lone), position },
                }
            },
        }
    }

    /// Parse a notation string and normalize it, in one step.
    pub fn from_raw_indices(names: &mut Namespace, indices: &str) -> (r: Result<
        Self,
        EinsumError,
    >)
        requires
            old(names)@ < usize::MAX,
        ensures
            match r {
                Ok(s) => {
                    &&& notation_model(indices@) matches Some(raw) && from_raw_post(
                        s,
                        raw,
                        old(names)@,
                    )
                    &&& final(names)@ == old(names)@ + 1
                },
                Err(e) => {
                    &&& e == EinsumError::Parse
                    &&& notation_model(indices@) is None
                    &&& final(names)@ == old(names)@
                },
            },
    {
        match parse_raw_subscripts(indices) {
            Some(raw) => Ok(Self::from_raw(names, raw)),
            None => Err(EinsumError::Parse),
        }
    }
}

/// The inputs whose flattened labels contain `c`, in their original order:
/// the `first` group of a factorization.
pub open spec fn with_label(inputs: Seq<SubscriptModel>, c: char) -> Seq<SubscriptModel>
    decreases inputs.len(),
{
    if inputs.len() == 0 {
        Seq::empty()
    } else {
        with_label(inputs.drop_last(), c) + if flat(inputs.last().raw).contains(c) {
            seq![inputs.last()]
        } else {
            Seq::empty()
        }
    }
}

/// The inputs whose flattened labels do not contain `c`, in their original
/// order: the `second` group of a factorization.
pub open spec fn without_label(inputs: Seq<SubscriptModel>, c: char) -> Seq<SubscriptModel>
    decreases inputs.len(),
{
    if inputs.len() == 0 {
        Seq::empty()
    } else {
        without_label(inputs.drop_last(), c) + if !flat(inputs.last().raw).contains(c) {
            seq![inputs.last()]
        } else {
            Seq::empty()
        }
    }
}

/// Counting over a single input.
pub proof fn lemma_count_all_single(m: SubscriptModel, d: char)
    ensures
        count_all(seq![m], d) == count_in(flat(m.raw), d),
{
    assert(seq![m].len() == 1);
    assert(seq![m].last() == m);
    assert(seq![m].drop_last() =~= Seq::<SubscriptModel>::empty());
    assert(count_all(seq![m].drop_last(), d) == 0);
}

/// Every input of the `first` group holds the factored label; none of the
/// `second` group does.
pub proof fn lemma_partition_members(inputs: Seq<SubscriptModel>, c: char)
    ensures
        forall|k: int|
            0 <= k < with_label(inputs, c).len() ==> flat(
                #[trigger] with_label(inputs, c)[k].raw,
            ).contains(c),
        forall|k: int|
            0 <= k < without_label(inputs, c).len() ==> !flat(
                #[trigger] without_label(inputs, c)[k].raw,
            ).contains(c),
    decreases inputs.len(),
{
    if inputs.len() > 0 {
        lemma_partition_members(inputs.drop_last(), c);
    }
}

/// The two groups of the partition hold all occurrences between them.
pub proof fn lemma_partition_count(inputs: Seq<SubscriptModel>, c: char, d: char)
    ensures
        count_all(inputs, d) == count_all(with_label(inputs, c), d) + count_all(
            without_label(inputs, c),
            d,
        ),
    decreases inputs.len(),
{
    if inputs.len() > 0 {
        lemma_partition_count(inputs.drop_last(), c, d);
        lemma_count_all_concat(with_label(inputs.drop_last(), c), seq![inputs.last()], d);
        lemma_count_all_concat(without_label(inputs.drop_last(), c), seq![inputs.last()], d);
        assert(with_label(inputs.drop_last(), c) + Seq::<SubscriptModel>::empty() =~= with_label(
            inputs.drop_last(),
            c,
        ));
        assert(without_label(inputs.drop_last(), c) + Seq::<SubscriptModel>::empty()
            =~= without_label(inputs.drop_last(), c));
        lemma_count_all_single(inputs.last(), d);
    }
}

/// The `second` group holds no occurrence of the factored label at all.
pub proof fn lemma_without_no_occurrence(inputs: Seq<SubscriptModel>, c: char)
    ensures
        count_all(without_label(inputs, c), c) == 0,
    decreases inputs.len(),
{
    if inputs.len() > 0 {
        lemma_without_no_occurrence(inputs.drop_last(), c);
        if !flat(inputs.last().raw).contains(c) {
            lemma_count_all_concat(without_label(inputs.drop_last(), c), seq![inputs.last()], c);
            lemma_count_in_contains(flat(inputs.last().raw), c);
            lemma_count_all_single(inputs.last(), c);
        } else {
            assert(without_label(inputs, c) =~= without_label(inputs.drop_last(), c));
        }
    }
}

/// A group whose every member holds the label leaves nothing for `second`.
pub proof fn lemma_without_all_contain(s: Seq<SubscriptModel>, c: char)
    requires
        forall|k: int| 0 <= k < s.len() ==> flat(#[trigger] s[k].raw).contains(c),
    ensures
        without_label(s, c).len() == 0,
    decreases s.len(),
{
    if s.len() > 0 {
        lemma_without_all_contain(s.drop_last(), c);
        assert(without_label(s, c) =~= without_label(s.drop_last(), c));
    }
}

/// Irreducibility: the `first` half of a split keeps every occurrence of the
/// factored label, and every one of its inputs holds that label, so a further
/// split along it leaves nothing for a `second` group.
pub proof fn lemma_first_irreducible(inputs: Seq<SubscriptModel>, index: char)
    ensures
        without_label(with_label(inputs, index), index).len() == 0,
        count_all(with_label(inputs, index), index) == count_all(inputs, index),
{
    lemma_partition_members(inputs, index);
    lemma_without_all_contain(with_label(inputs, index), index);
    lemma_partition_count(inputs, index, index);
    lemma_without_no_occurrence(inputs, index);
}

/// The label list of a fresh intermediate: every label of the `first` group
/// except the factored one, deduplicated, in ascending order.
pub open spec fn fresh_output(
    out: RawSubscriptModel,
    inputs: Seq<SubscriptModel>,
    index: char,
) -> bool {
    match out {
        RawSubscriptModel::Indices(v) => strictly_sorted(v) && (forall|c: char|
            v.contains(c) <==> (c != index && count_all(with_label(inputs, index), c) > 0)),
        RawSubscriptModel::Ellipsis { start, end } => false,
    }
}

impl Subscripts {
    /// Factorize this step along `index`.
    ///
    /// - `Ok(Some((first, second)))`: the split succeeded. `first` holds the
    ///   inputs that contain `index` and sums exactly `index` away into a
    ///   fresh intermediate; `second` starts from that intermediate, holds the
    ///   remaining inputs, and keeps the original output. Its contraction-index
    ///   set loses `index` and gains nothing: repeated factorization
    ///   terminates.
    /// - `Ok(None)`: every input contains `index`; the step is irreducible
    ///   along it. Nothing is mutated.
    /// - `Err`: `index` is not a contraction index. Nothing is mutated.
    pub fn factorize(&self, names: &mut Namespace, index: char) -> (r: Result<
        Option<(Subscripts, Subscripts)>,
        EinsumError,
    >)
        requires
            old(names)@ < usize::MAX,
        ensures
            match r {
                Err(e) => {
                    &&& e == EinsumError::UnknownIndex(index)
                    &&& !self.contraction_set().contains(index)
                    &&& final(names)@ == old(names)@
                },
                Ok(opt) => match opt {
                    None => {
                        &&& self.contraction_set().contains(index)
                        &&& without_label(self.inputs.deep_view(), index).len() == 0
                        &&& final(names)@ == old(names)@
                    },
                    Some((fst, snd)) => {
                        &&& self.contraction_set().contains(index)
                        &&& without_label(self.inputs.deep_view(), index).len() > 0
                        &&& final(names)@ == old(names)@ + 1
                        &&& fst.inputs.deep_view() == with_label(self.inputs.deep_view(), index)
                        &&& fst.output@.position == Position::Intermidiate(old(names)@ as usize)
                        &&& fresh_output(fst.output@.raw, self.inputs.deep_view(), index)
                        &&& snd.inputs.deep_view() == seq![fst.output@] + without_label(
                            self.inputs.deep_view(),
                            index,
                        )
                        &&& snd.output@ == self.output@
                        &&& forall|c: char| fst.contraction_set().contains(c) <==> c == index
                        &&& without_label(fst.inputs.deep_view(), index).len() == 0
                        &&& snd.contraction_set().subset_of(self.contraction_set())
                        &&& !snd.contraction_set().contains(index)
                    },
                },
            },
    {
        let ghost dv = self.inputs.deep_view();
        let ci = self.contraction_indices();
        if !contains_label(&ci, index) {
            return Err(EinsumError::UnknownIndex(index));
        }
        assert(self.contraction_set().contains(index));
        let mut first: Vec<Subscript> = Vec::new();
        let mut second: Vec<Subscript> = Vec::new();
        let mut out_labels: Vec<char> = Vec::new();
        let mut i: usize = 0;
        while i < self.inputs.len()
            invariant
                0 <= i <= self.inputs@.len(),
                dv == self.inputs.deep_view(),
                dv.len() == self.inputs@.len(),
                first.deep_view() == with_label(dv.take(i as int), index),
                second.deep_view() == without_label(dv.take(i as int), index),
                strictly_sorted(out_labels@),
                forall|c: char|
                    out_labels@.contains(c) <==> (c != index && count_all(
                        with_label(dv.take(i as int), index),
                        c,
                    ) > 0),
            decreases self.inputs@.len() - i,
        {
            let inp = &self.inputs[i];
            let labels = inp.indices();
            let ghost f0 = first.deep_view();
            let ghost fv0 = first@;
            let ghost sd0 = second.deep_view();
            let ghost sv0 = second@;
            proof {
                assert(dv.take(i + 1).drop_last() =~= dv.take(i as int));
                assert(dv.take(i + 1).last() == dv[i as int]);
                assert(labels@ == flat(dv[i as int].raw));
            }
            if contains_label(&labels, index) {
                first.push(inp.clone());
                proof {
                    assert(first.deep_view() =~= f0.push(dv[i as int])) by {
                        assert(first@[first@.len() - 1]@ == dv[i as int]);
                        assert forall|k: int| 0 <= k < f0.len() implies #[trigger] first@[k]@
                            == f0[k] by {
                            assert(first@[k] == fv0[k]);
                        }
                    }
                    assert(with_label(dv.take(i + 1), index) =~= with_label(
                        dv.take(i as int),
                        index,
                    ).push(dv[i as int]));
                    assert(without_label(dv.take(i + 1), index) =~= without_label(
                        dv.take(i as int),
                        index,
                    ));
                }
                let ghost base = with_label(dv.take(i as int), index);
                let mut j: usize = 0;
                while j < labels.len()
                    invariant
                        0 <= j <= labels@.len(),
                        strictly_sorted(out_labels@),
                        forall|c: char|
                            out_labels@.contains(c) <==> (c != index && (count_all(base, c)
                                + count_in(labels@.take(j as int), c) > 0)),
                    decreases labels@.len() - j,
                {
                    let c = labels[j];
                    if c != index {
                        insert_label(&mut out_labels, c);
                    }
                    proof {
                        assert(labels@.take(j + 1) =~= labels@.take(j as int).push(
                            labels@[j as int],
                        ));
                        assert forall|d: char|
                            out_labels@.contains(d) <==> (d != index && (count_all(base, d)
                                + count_in(labels@.take(j + 1), d) > 0)) by {
                            lemma_count_in_push(labels@.take(j as int), labels@[j as int], d);
                        }
                    }
                    j += 1;
                }
                proof {
                    assert(labels@.take(labels@.len() as int) =~= labels@);
                    assert forall|c: char|
                        out_labels@.contains(c) <==> (c != index && count_all(
                            with_label(dv.take(i + 1), index),
                            c,
                        ) > 0) by {
                        lemma_count_all_push(base, dv[i as int], c);
                        lemma_count_in_contains(labels@, c);
                    }
                }
            } else {
                second.push(inp.clone());
                proof {
                    assert(second.deep_view() =~= sd0.push(dv[i as int])) by {
                        assert(second@[second@.len() - 1]@ == dv[i as int]);
                        assert forall|k: int| 0 <= k < sd0.len() implies #[trigger] second@[k]@
                            == sd0[k] by {
                            assert(second@[k] == sv0[k]);
                        }
                    }
                    assert(without_label(dv.take(i + 1), index) =~= without_label(
                        dv.take(i as int),
                        index,
                    ).push(dv[i as int]));
                    assert(with_label(dv.take(i + 1), index) =~= with_label(
                        dv.take(i as int),
                        index,
                    ));
                }
            }
            i += 1;
        }
        proof {
            assert(dv.take(dv.len() as int) =~= dv);
        }
        if second.len() == 0 {
            assert(without_label(dv, index).len() == 0);
            return Ok(None);
        }
        let position = names.new();
        let output = Subscript { raw: RawSubscript::Indices(out_labels), position };
        let ghost outm = output@;
        let ghost w = with_label(dv, index);
        let ghost wo = without_label(dv, index);
        let ghost s1 = second.deep_view();
        let ghost sv1 = second@;
        let ghost out_seq = outm.raw->Indices_0;
        let cloned = output.clone();
        second.insert(0, cloned);
        proof {
            sv1.insert_ensures(0, cloned);
            assert(second.deep_view() =~= seq![outm] + s1) by {
                assert(second@[0]@ == outm);
                assert forall|k: int| 1 <= k < second@.len() implies #[trigger] second@[k]@
                    == s1[k - 1] by {
                    assert(second@[k] == sv1[k - 1]);
                }
            }
        }
        let fst = Subscripts { inputs: first, output };
        let snd = Subscripts { inputs: second, output: self.output.clone() };
        proof {
            assert(fst.inputs.deep_view() == w);
            assert(flat(outm.raw) == out_seq);
            assert(count_all(dv, index) > 1);
            lemma_partition_count(dv, index, index);
            lemma_without_no_occurrence(dv, index);
            assert(count_all(w, index) == count_all(dv, index));
            assert forall|c: char| fst.contraction_set().contains(c) <==> (c == index) by {
                if c == index {
                    assert(!out_seq.contains(index));
                    assert(count_all(w, index) > 1);
                } else {
                    if count_all(w, c) > 1 && !out_seq.contains(c) {
                        assert(out_seq.contains(c));
                    }
                }
            }
            lemma_first_irreducible(dv, index);
            assert(snd.inputs.deep_view() == seq![outm] + wo);
            assert forall|d: char|
                count_all(snd.inputs.deep_view(), d) == count_in(out_seq, d) + count_all(
                    wo,
                    d,
                ) by {
                lemma_count_all_concat(seq![outm], wo, d);
                lemma_count_all_single(outm, d);
            }
            assert(!snd.contraction_set().contains(index)) by {
                lemma_count_in_contains(out_seq, index);
            }
            assert forall|c: char|
                snd.contraction_set().contains(c) implies self.contraction_set().contains(c) by {
                lemma_partition_count(dv, index, c);
                lemma_strictly_sorted_count(out_seq, c);
                lemma_count_in_contains(out_seq, c);
                if count_all(wo, c) < 2 {
                    // the intermediate contributes one occurrence of `c`, so
                    // `c` stands in the first group too
                    assert(count_in(out_seq, c) == 1 && count_all(wo, c) >= 1);
                    assert(out_seq.contains(c));
                    assert(count_all(w, c) > 0);
                }
            }
        }
        Ok(Some((fst, snd)))
    }
}


/// The textual form of one raw subscript inside a canonical name: its labels,
/// with an ellipsis rendered as three underscores.
pub open spec fn raw_name(r: RawSubscriptModel) -> Seq<char> {
    match r {
        RawSubscriptModel::Indices(v) => v,
        RawSubscriptModel::Ellipsis { start, end } => start + seq!['_', '_', '_'] + end,
    }
}

/// The input part of a canonical name: each input's text followed by one
/// underscore.
pub open spec fn inputs_name(inputs: Seq<SubscriptModel>) -> Seq<char>
    decreases inputs.len(),
{
    if inputs.len() == 0 {
        Seq::empty()
    } else {
        inputs_name(inputs.drop_last()) + raw_name(inputs.last().raw) + seq!['_']
    }
}

/// The canonical name of a step: the inputs' texts, each followed by one
/// underscore, then one more underscore and the output's text.
pub open spec fn name_model(inputs: Seq<SubscriptModel>, output: SubscriptModel) -> Seq<char> {
    inputs_name(inputs) + seq!['_'] + raw_name(output.raw)
}

/// Relies on `String::from_iter` for `char` items: the returned string holds
/// exactly the given characters, in order.
#[verifier::external_body]
fn chars_to_string(v: Vec<char>) -> (r: String)
    ensures
        r@ == v@,
{
    String::from_iter(v)
}

/// Append the textual form of one raw subscript.
fn push_raw_name(buf: &mut Vec<char>, r: &RawSubscript)
    ensures
        final(buf)@ == old(buf)@ + raw_name(r@),
{
    let ghost b0 = buf@;
    match r {
        RawSubscript::Indices(v) => {
            let mut j: usize = 0;
            while j < v.len()
                invariant
                    0 <= j <= v@.len(),
                    buf@ =~= b0 + v@.take(j as int),
                decreases v@.len() - j,
            {
                buf.push(v[j]);
                assert(buf@ =~= b0 + v@.take(j + 1));
                j += 1;
            }
            assert(buf@ =~= b0 + v@);
        },
        RawSubscript::Ellipsis { start, end } => {
            let mut j: usize = 0;
            while j < start.len()
                invariant
                    0 <= j <= start@.len(),
                    buf@ =~= b0 + start@.take(j as int),
                decreases start@.len() - j,
            {
                buf.push(start[j]);
                assert(buf@ =~= b0 + start@.take(j + 1));
                j += 1;
            }
            buf.push('_');
            buf.push('_');
            buf.push('_');
            let ghost b1 = buf@;
            assert(b1 =~= b0 + start@ + seq!['_', '_', '_']);
            let mut k: usize = 0;
            while k < end.len()
                invariant
                    0 <= k <= end@.len(),
                    buf@ =~= b1 + end@.take(k as int),
                decreases end@.len() - k,
            {
                buf.push(end[k]);
                assert(buf@ =~= b1 + end@.take(k + 1));
                k += 1;
            }
            assert(buf@ =~= b0 + (start@ + seq!['_', '_', '_'] + end@));
        },
    }
}

impl Subscripts {
    /// The canonical, deterministic name of this step, used downstream as a
    /// generated function name. Deliberately non-injective: two steps whose
    /// differently placed ellipses flatten alike share one name.
    pub fn name(&self) -> (r: String)
        ensures
            r@ == name_model(self.inputs.deep_view(), self.output@),
    {
        let ghost dv = self.inputs.deep_view();
        let mut buf: Vec<char> = Vec::new();
        let mut i: usize = 0;
        while i < self.inputs.len()
            invariant
                0 <= i <= self.inputs@.len(),
                dv == self.inputs.deep_view(),
                dv.len() == self.inputs@.len(),
                buf@ == inputs_name(dv.take(i as int)),
            decreases self.inputs@.len() - i,
        {
            proof {
                assert(dv.take(i + 1).drop_last() =~= dv.take(i as int));
                assert(dv.take(i + 1).last() == dv[i as int]);
            }
            push_raw_name(&mut buf, self.inputs[i].raw());
            buf.push('_');
            assert(buf@ =~= inputs_name(dv.take(i as int)) + raw_name(dv[i as int].raw) + seq![
                '_',
            ]);
            i += 1;
        }
        proof {
            assert(dv.take(dv.len() as int) =~= dv);
        }
        buf.push('_');
        push_raw_name(&mut buf, self.output.raw());
        assert(buf@ =~= name_model(dv, self.output@));
        chars_to_string(buf)
    }
}

/// Determinism of construction: any two results that construction may return
/// for one parsed notation and one fresh identifier agree, and so do their
/// canonical names. With the parser a function of the notation string, one
/// string yields one name, on every run.
pub proof fn lemma_from_raw_deterministic(
    a: Subscripts,
    b: Subscripts,
    raw: RawSubscriptsModel,
    fresh: nat,
)
    requires
        from_raw_post(a, raw, fresh),
        from_raw_post(b, raw, fresh),
    ensures
        a.inputs.deep_view() == b.inputs.deep_view(),
        a.output@ == b.output@,
        name_model(a.inputs.deep_view(), a.output@) == name_model(b.inputs.deep_view(), b.output@),
{
    assert(a.inputs.deep_view() =~= b.inputs.deep_view());
    match raw.output {
        Some(o) => {
            assert(a.output@.raw == o && b.output@.raw == o);
        },
        None => {
            let va = a.output@.raw->Indices_0;
            let vb = b.output@.raw->Indices_0;
            assert forall|c: char| va.contains(c) <==> vb.contains(c) by {
                assert(va.contains(c) <==> count_all(a.inputs.deep_view(), c) == 1);
                assert(vb.contains(c) <==> count_all(b.inputs.deep_view(), c) == 1);
            }
            lemma_strictly_sorted_same_set(va, vb);
        },
    }
}

/// Provenance: a constructed step's `User` positions are exactly `0..n` in
/// argument order, one per input.
pub proof fn lemma_user_positions_exact(r: Subscripts, raw: RawSubscriptsModel, fresh: nat)
    requires
        from_raw_post(r, raw, fresh),
    ensures
        r.inputs.deep_view().map_values(|m: SubscriptModel| m.position) =~= Seq::new(
            raw.inputs.len(),
            |i: int| Position::User(i as usize),
        ),
{
}

/// Determinism end to end: one notation string and one starting namespace
/// admit one construction result up to its mathematical value, and hence one
/// canonical name, on every run.
pub proof fn lemma_expansion_deterministic(a: Subscripts, b: Subscripts, s: Seq<char>, fresh: nat)
    requires
        notation_model(s) is Some,
        from_raw_post(a, notation_model(s)->Some_0, fresh),
        from_raw_post(b, notation_model(s)->Some_0, fresh),
    ensures
        name_model(a.inputs.deep_view(), a.output@) == name_model(b.inputs.deep_view(), b.output@),
{
    lemma_from_raw_deterministic(a, b, notation_model(s)->Some_0, fresh);
}

/// The set of labels occurring anywhere in the given inputs.
pub open spec fn label_set(inputs: Seq<SubscriptModel>) -> Set<char>
    decreases inputs.len(),
{
    if inputs.len() == 0 {
        Set::empty()
    } else {
        label_set(inputs.drop_last()).union(flat(inputs.last().raw).to_set())
    }
}

/// The label set is finite and holds exactly the labels with occurrences.
pub proof fn lemma_label_set(inputs: Seq<SubscriptModel>)
    ensures
        label_set(inputs).finite(),
        forall|c: char| label_set(inputs).contains(c) <==> count_all(inputs, c) > 0,
    decreases inputs.len(),
{
    if inputs.len() > 0 {
        lemma_label_set(inputs.drop_last());
        vstd::seq_lib::seq_to_set_is_finite(flat(inputs.last().raw));
        assert forall|c: char|
            label_set(inputs).contains(c) <==> count_all(inputs, c) > 0 by {
            lemma_count_in_contains(flat(inputs.last().raw), c);
        }
    }
}

/// A contraction-index set is finite: it gathers only labels of the inputs.
pub proof fn lemma_contraction_set_finite(s: Subscripts)
    ensures
        s.contraction_set().finite(),
        s.contraction_set().len() <= label_set(s.inputs.deep_view()).len(),
{
    lemma_label_set(s.inputs.deep_view());
    assert(s.contraction_set().subset_of(label_set(s.inputs.deep_view())));
    lemma_len_subset(s.contraction_set(), label_set(s.inputs.deep_view()));
}

/// Progress: a successful split strictly shrinks the contraction-index set,
/// so repeated factorization terminates.
pub proof fn lemma_contraction_progress(orig: Subscripts, second: Subscripts, index: char)
    requires
        second.contraction_set().subset_of(orig.contraction_set()),
        orig.contraction_set().contains(index),
        !second.contraction_set().contains(index),
    ensures
        orig.contraction_set().finite(),
        second.contraction_set().finite(),
        second.contraction_set().len() < orig.contraction_set().len(),
{
    lemma_contraction_set_finite(orig);
    lemma_contraction_set_finite(second);
    let reduced = orig.contraction_set().remove(index);
    assert(second.contraction_set().subset_of(reduced));
    lemma_len_subset(second.contraction_set(), reduced);
    assert(reduced.len() == orig.contraction_set().len() - 1);
}



} // verus!
