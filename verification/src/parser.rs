//! The textual einsum notation and its structural representation.
//!
//! A notation such as `ij,jk->ik` lists one subscript per input, separated by
//! commas, optionally followed by `->` and an explicit output subscript. A
//! subscript is a run of lowercase index labels that may contain one broadcast
//! ellipsis `...`, e.g. `ij...k`.

use vstd::prelude::*;
use vstd::string::StrSliceExecFns;

verus! {

/// One tensor's raw index labels, as written in the notation.
#[derive(Debug, PartialEq, Eq, Hash)]
pub enum RawSubscript {
    /// A plain ordered sequence of index labels, e.g. `ij`.
    Indices(Vec<char>),
    /// Labels around a broadcast ellipsis, e.g. `ij...k`.
    Ellipsis { start: Vec<char>, end: Vec<char> },
}

/// The mathematical value of a [`RawSubscript`].
pub enum RawSubscriptModel {
    Indices(Seq<char>),
    Ellipsis { start: Seq<char>, end: Seq<char> },
}

impl View for RawSubscript {
    type V = RawSubscriptModel;

    open spec fn view(&self) -> RawSubscriptModel {
        match self {
            RawSubscript::Indices(v) => RawSubscriptModel::Indices(v@),
            RawSubscript::Ellipsis { start, end } => RawSubscriptModel::Ellipsis {
                start: start@,
                end: end@,
            },
        }
    }
}

impl DeepView for RawSubscript {
    type V = RawSubscriptModel;

    open spec fn deep_view(&self) -> RawSubscriptModel {
        self.view()
    }
}

impl Clone for RawSubscript {
    /// A clone denotes the same label sequence.
    fn clone(&self) -> (r: Self)
        ensures
            r@ == self@,
    {
        match self {
            RawSubscript::Indices(v) => {
                let w = v.clone();
                assert(w@ =~= v@);
                RawSubscript::Indices(w)
            },
            RawSubscript::Ellipsis { start, end } => {
                let s = start.clone();
                let e = end.clone();
                assert(s@ =~= start@ && e@ =~= end@);
                RawSubscript::Ellipsis { start: s, end: e }
            },
        }
    }
}

/// The flattened label sequence of a raw subscript: ellipsis boundaries are
/// discarded, `start` and `end` are concatenated. A deliberate information
/// loss: two subscripts with differently placed ellipses can flatten alike.
pub open spec fn flat(r: RawSubscriptModel) -> Seq<char> {
    match r {
        RawSubscriptModel::Indices(s) => s,
        RawSubscriptModel::Ellipsis { start, end } => start + end,
    }
}

/// A parsed notation: one raw subscript per input, plus an optional explicit
/// output ("explicit mode"). Without one, the output is inferred later.
#[derive(Debug, PartialEq, Eq)]
pub struct RawSubscripts {
    pub inputs: Vec<RawSubscript>,
    pub output: Option<RawSubscript>,
}

/// The mathematical value of a [`RawSubscripts`].
pub struct RawSubscriptsModel {
    pub inputs: Seq<RawSubscriptModel>,
    pub output: Option<RawSubscriptModel>,
}

impl View for RawSubscripts {
    type V = RawSubscriptsModel;

    open spec fn view(&self) -> RawSubscriptsModel {
        RawSubscriptsModel { inputs: self.inputs.deep_view(), output: self.output.deep_view() }
    }
}

/// An index label: a lowercase ASCII letter.
pub open spec fn is_index_label(c: char) -> bool {
    ('a' as u32) <= (c as u32) <= ('z' as u32)
}

/// Whether every character of `s` is an index label.
pub open spec fn all_labels(s: Seq<char>) -> bool {
    forall|i: int| 0 <= i < s.len() ==> is_index_label(s[i])
}

/// The position of the first character of `s` that is not an index label,
/// or `s.len()` if there is none.
pub open spec fn label_run(s: Seq<char>) -> nat
    decreases s.len(),
{
    if s.len() == 0 {
        0
    } else if !is_index_label(s[0]) {
        0
    } else {
        1 + label_run(s.drop_first())
    }
}

/// The position of the first occurrence of `c` in `s`, or `s.len()`.
pub open spec fn first_at(s: Seq<char>, c: char) -> nat
    decreases s.len(),
{
    if s.len() == 0 {
        0
    } else if s[0] == c {
        0
    } else {
        1 + first_at(s.drop_first(), c)
    }
}


/// A scan that stops at the first non-label lands on `label_run`.
pub proof fn lemma_label_run_is(s: Seq<char>, pos: int)
    requires
        0 <= pos <= s.len(),
        forall|i: int| 0 <= i < pos ==> is_index_label(s[i]),
        pos < s.len() ==> !is_index_label(s[pos]),
    ensures
        label_run(s) == pos,
    decreases s.len(),
{
    if s.len() > 0 && pos > 0 {
        assert(is_index_label(s[0]));
        let t = s.drop_first();
        assert(forall|i: int| 0 <= i < t.len() ==> t[i] == s[i + 1]);
        lemma_label_run_is(t, pos - 1);
    }
}


/// A scan that stops at the first occurrence of `c` lands on `first_at`.
pub proof fn lemma_first_at_is(s: Seq<char>, c: char, pos: int)
    requires
        0 <= pos <= s.len(),
        forall|i: int| 0 <= i < pos ==> s[i] != c,
        pos < s.len() ==> s[pos] == c,
    ensures
        first_at(s, c) == pos,
    decreases s.len(),
{
    if s.len() > 0 && pos > 0 {
        let t = s.drop_first();
        assert(forall|i: int| 0 <= i < t.len() ==> t[i] == s[i + 1]);
        lemma_first_at_is(t, c, pos - 1);
    }
}

/// What one subscript segment parses to: a plain label run, or a label run,
/// one ellipsis `...`, and a final label run. Anything else is rejected.
pub open spec fn subscript_model(s: Seq<char>) -> Option<RawSubscriptModel> {
    let b = label_run(s) as int;
    if b == s.len() {
        Some(RawSubscriptModel::Indices(s))
    } else if b + 3 <= s.len() && s[b] == '.' && s[b + 1] == '.' && s[b + 2] == '.' && all_labels(
        s.skip(b + 3),
    ) {
        Some(RawSubscriptModel::Ellipsis { start: s.take(b), end: s.skip(b + 3) })
    } else {
        None
    }
}

/// What the comma-separated input list parses to.
pub open spec fn inputs_model(s: Seq<char>) -> Option<Seq<RawSubscriptModel>>
    decreases s.len(),
{
    let k = first_at(s, ',') as int;
    if k >= s.len() {
        match subscript_model(s) {
            Some(r) => Some(seq![r]),
            None => None,
        }
    } else {
        match (subscript_model(s.take(k)), inputs_model(s.skip(k + 1))) {
            (Some(r), Some(rest)) => Some(seq![r] + rest),
            _ => None,
        }
    }
}

/// What a whole notation parses to: the input list, then optionally `->` and
/// an explicit output subscript.
pub open spec fn notation_model(s: Seq<char>) -> Option<RawSubscriptsModel> {
    let a = first_at(s, '-') as int;
    if a >= s.len() {
        match inputs_model(s) {
            Some(ins) => Some(RawSubscriptsModel { inputs: ins, output: None }),
            None => None,
        }
    } else if a + 1 < s.len() && s[a + 1] == '>' {
        match (inputs_model(s.take(a)), subscript_model(s.skip(a + 2))) {
            (Some(ins), Some(o)) => Some(RawSubscriptsModel { inputs: ins, output: Some(o) }),
            _ => None,
        }
    } else {
        None
    }
}

/// The characters of `s`, in order.
fn str_to_chars(s: &str) -> (r: Vec<char>)
    ensures
        r@ == s@,
{
    let n = s.unicode_len();
    let mut r: Vec<char> = Vec::new();
    let mut i: usize = 0;
    while i < n
        invariant
            n == s@.len(),
            0 <= i <= n,
            r@ =~= s@.take(i as int),
        decreases n - i,
    {
        let c = s.get_char(i);
        r.push(c);
        assert(r@ =~= s@.take(i + 1));
        i += 1;
    }
    assert(r@ =~= s@);
    r
}

/// Whether `c` is an index label.
fn is_label_char(c: char) -> (r: bool)
    ensures
        r == is_index_label(c),
{
    ('a' as u32) <= (c as u32) && (c as u32) <= ('z' as u32)
}

/// Parse one subscript segment, `v[lo..hi)`.
fn parse_subscript(v: &Vec<char>, lo: usize, hi: usize) -> (r: Option<RawSubscript>)
    requires
        lo <= hi <= v@.len(),
    ensures
        match r {
            Some(x) => subscript_model(v@.subrange(lo as int, hi as int)) == Some(x@),
            None => subscript_model(v@.subrange(lo as int, hi as int)) is None,
        },
{
    let ghost seg = v@.subrange(lo as int, hi as int);
    let mut start: Vec<char> = Vec::new();
    let mut i: usize = lo;
    while i < hi && is_label_char(v[i])
        invariant
            lo <= i <= hi <= v@.len(),
            seg == v@.subrange(lo as int, hi as int),
            start@ =~= seg.take(i - lo),
            forall|k: int| 0 <= k < i - lo ==> is_index_label(seg[k]),
        decreases hi - i,
    {
        start.push(v[i]);
        assert(start@ =~= seg.take(i + 1 - lo));
        i += 1;
    }
    proof {
        lemma_label_run_is(seg, i - lo);
    }
    if i == hi {
        assert(seg.take(i - lo) =~= seg);
        return Some(RawSubscript::Indices(start));
    }
    // a non-label character: only a broadcast ellipsis is accepted here
    assert(seg[i - lo] == v@[i as int]);
    if hi - i < 3 || !(v[i] == '.' && v[i + 1] == '.' && v[i + 2] == '.') {
        assert(i - lo + 1 < seg.len() ==> seg[i - lo + 1] == v@[i + 1]);
        assert(i - lo + 2 < seg.len() ==> seg[i - lo + 2] == v@[i + 2]);
        return None;
    }
    assert(seg[i - lo + 1] == v@[i + 1] && seg[i - lo + 2] == v@[i + 2]);
    let mut end: Vec<char> = Vec::new();
    let mut j: usize = i + 3;
    while j < hi
        invariant
            lo <= i,
            i + 3 <= j <= hi <= v@.len(),
            seg == v@.subrange(lo as int, hi as int),
            label_run(seg) == i - lo,
            seg[i - lo] == '.' && seg[i - lo + 1] == '.' && seg[i - lo + 2] == '.',
            end@ =~= seg.subrange(i + 3 - lo, j - lo),
            forall|k: int| i + 3 - lo <= k < j - lo ==> is_index_label(seg[k]),
        decreases hi - j,
    {
        if !is_label_char(v[j]) {
            assert(seg[j - lo] == v@[j as int]);
            assert(seg.skip(i - lo + 3)[j - lo - (i - lo + 3)] == seg[j - lo]);
            assert(!is_index_label(seg.skip(i - lo + 3)[j - lo - (i - lo + 3)]));
            assert(!all_labels(seg.skip(i - lo + 3)));
            return None;
        }
        end.push(v[j]);
        assert(end@ =~= seg.subrange(i + 3 - lo, j + 1 - lo));
        j += 1;
    }
    assert(end@ =~= seg.skip(i + 3 - lo));
    assert(all_labels(seg.skip(i + 3 - lo)));
    assert(start@ =~= seg.take(i - lo));
    Some(RawSubscript::Ellipsis { start, end })
}

/// Parse the comma-separated input list, `v[lo..hi)`.
fn parse_inputs(v: &Vec<char>, lo: usize, hi: usize) -> (r: Option<Vec<RawSubscript>>)
    requires
        lo <= hi <= v@.len(),
    ensures
        match r {
            Some(x) => inputs_model(v@.subrange(lo as int, hi as int)) == Some(x.deep_view()),
            None => inputs_model(v@.subrange(lo as int, hi as int)) is None,
        },
    decreases hi - lo,
{
    let ghost seg = v@.subrange(lo as int, hi as int);
    let mut k: usize = lo;
    while k < hi && v[k] != ','
        invariant
            lo <= k <= hi <= v@.len(),
            seg == v@.subrange(lo as int, hi as int),
            forall|t: int| 0 <= t < k - lo ==> seg[t] != ',',
        decreases hi - k,
    {
        k += 1;
    }
    proof {
        lemma_first_at_is(seg, ',', k - lo);
    }
    if k == hi {
        match parse_subscript(v, lo, hi) {
            Some(x) => {
                let mut out: Vec<RawSubscript> = Vec::new();
                out.push(x);
                assert(out.deep_view() =~= seq![x@]);
                Some(out)
            },
            None => None,
        }
    } else {
        assert(seg.take(k - lo) =~= v@.subrange(lo as int, k as int));
        assert(seg.skip(k + 1 - lo) =~= v@.subrange(k + 1, hi as int));
        match parse_subscript(v, lo, k) {
            Some(x) => {
                match parse_inputs(v, k + 1, hi) {
                    Some(rest) => {
                        let ghost restm = rest.deep_view();
                        let ghost rest0 = rest@;
                        let mut out = rest;
                        out.insert(0, x);
                        proof {
                            rest0.insert_ensures(0, x);
                        }
                        assert(out.deep_view() =~= seq![x@] + restm);
                        Some(out)
                    },
                    None => None,
                }
            },
            None => None,
        }
    }
}

/// Parse a whole notation string.
///
/// The result is exactly what [`notation_model`] assigns to the characters of
/// `s`; `None` exactly when the notation is malformed.
pub fn parse_raw_subscripts(s: &str) -> (r: Option<RawSubscripts>)
    ensures
        match r {
            Some(x) => notation_model(s@) == Some(x@),
            None => notation_model(s@) is None,
        },
{
    let v = str_to_chars(s);
    let n = v.len();
    let mut a: usize = 0;
    while a < n && v[a] != '-'
        invariant
            0 <= a <= n == v@.len(),
            v@ == s@,
            forall|t: int| 0 <= t < a ==> v@[t] != '-',
        decreases n - a,
    {
        a += 1;
    }
    proof {
        lemma_first_at_is(v@, '-', a as int);
    }
    if a == n {
        assert(v@.subrange(0, n as int) =~= s@);
        match parse_inputs(&v, 0, n) {
            Some(ins) => Some(RawSubscripts { inputs: ins, output: None }),
            None => None,
        }
    } else if a + 1 < n && v[a + 1] == '>' {
        assert(v@.subrange(0, a as int) =~= s@.take(a as int));
        assert(v@.subrange(a + 2, n as int) =~= s@.skip(a + 2));
        match parse_inputs(&v, 0, a) {
            Some(ins) => {
                match parse_subscript(&v, a + 2, n) {
                    Some(o) => Some(RawSubscripts { inputs: ins, output: Some(o) }),
                    None => None,
                }
            },
            None => None,
        }
    } else {
        None
    }
}

} // verus!
