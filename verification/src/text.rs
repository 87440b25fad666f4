//! Text helpers over `char` sequences: whitespace, trimming, label order.

use vstd::prelude::*;

verus! {

broadcast use vstd::string::group_string_axioms;

/// The characters that carry the Unicode `White_Space` property, which is
/// what `char::is_whitespace` tests.
pub open spec fn is_white_space(c: char) -> bool {
    let n = c as u32;
    ||| 0x9 <= n <= 0xD
    ||| n == 0x20
    ||| n == 0x85
    ||| n == 0xA0
    ||| n == 0x1680
    ||| 0x2000 <= n <= 0x200A
    ||| n == 0x2028
    ||| n == 0x2029
    ||| n == 0x202F
    ||| n == 0x205F
    ||| n == 0x3000
}

pub fn is_white_space_char(c: char) -> (r: bool)
    ensures
        r == is_white_space(c),
{
    let n = c as u32;
    (0x9 <= n && n <= 0xD) || n == 0x20 || n == 0x85 || n == 0xA0 || n == 0x1680 || (0x2000
        <= n && n <= 0x200A) || n == 0x2028 || n == 0x2029 || n == 0x202F || n == 0x205F || n
        == 0x3000
}

/// The characters of `s`, in order.
pub fn chars_of(s: &str) -> (v: Vec<char>)
    ensures
        v@ == s@,
{
    let mut v: Vec<char> = Vec::new();
    for c in it: s.chars()
        invariant
            v@ == it.seq().take(it.index() as int),
            it.seq() == s@,
    {
        v.push(c);
    }
    v
}


/// `s` without its leading white space.
pub open spec fn trim_start(s: Seq<char>) -> Seq<char>
    decreases s.len(),
{
    if s.len() > 0 && is_white_space(s[0]) {
        trim_start(s.drop_first())
    } else {
        s
    }
}

/// `s` without its trailing white space.
pub open spec fn trim_end(s: Seq<char>) -> Seq<char>
    decreases s.len(),
{
    if s.len() > 0 && is_white_space(s.last()) {
        trim_end(s.drop_last())
    } else {
        s
    }
}

/// `s` without leading and trailing white space, as `str::trim` gives it.
pub open spec fn trimmed(s: Seq<char>) -> Seq<char> {
    trim_end(trim_start(s))
}

/// A text is blank when nothing is left of it after trimming.
pub open spec fn is_blank(s: Seq<char>) -> bool {
    trimmed(s).len() == 0
}

/// Returns `s` with leading and trailing white space removed.
pub fn trim_text(s: &str) -> (r: String)
    ensures
        r@ == trimmed(s@),
{
    let v = chars_of(s);
    let n = v.len();
    let mut i: usize = 0;
    assert(s@.subrange(0, n as int) =~= s@);
    while i < n && is_white_space_char(v[i])
        invariant
            v@ == s@,
            n == v@.len(),
            i <= n,
            trim_start(s@) == trim_start(s@.subrange(i as int, n as int)),
        decreases n - i,
    {
        assert(s@.subrange(i as int, n as int).drop_first() =~= s@.subrange(i + 1, n as int));
        i = i + 1;
    }
    assert(trim_start(s@) == s@.subrange(i as int, n as int));
    let mut j: usize = n;
    while j > i && is_white_space_char(v[j - 1])
        invariant
            v@ == s@,
            n == v@.len(),
            i <= j <= n,
            trim_end(s@.subrange(i as int, n as int)) == trim_end(s@.subrange(i as int, j as int)),
        decreases j - i,
    {
        assert(s@.subrange(i as int, j as int).drop_last() =~= s@.subrange(i as int, j - 1));
        j = j - 1;
    }
    assert(trim_end(s@.subrange(i as int, j as int)) == s@.subrange(i as int, j as int));
    let piece = s.substring_char(i, j);
    piece.to_owned()
}

proof fn lemma_trim_start_shape(s: Seq<char>)
    ensures
        trim_start(s).len() <= s.len(),
        trim_start(s).len() == 0 || !is_white_space(trim_start(s)[0]),
        trim_start(s) == s.skip(s.len() - trim_start(s).len()),
    decreases s.len(),
{
    if s.len() > 0 && is_white_space(s[0]) {
        lemma_trim_start_shape(s.drop_first());
        assert(s.drop_first().skip(s.drop_first().len() - trim_start(s).len()) =~= s.skip(s.len() - trim_start(s).len()));
    } else {
        assert(s.skip(0) =~= s);
    }
}

proof fn lemma_trim_end_shape(s: Seq<char>)
    ensures
        trim_end(s).len() <= s.len(),
        trim_end(s).len() == 0 || !is_white_space(trim_end(s).last()),
        trim_end(s) == s.take(trim_end(s).len() as int),
    decreases s.len(),
{
    if s.len() > 0 && is_white_space(s.last()) {
        lemma_trim_end_shape(s.drop_last());
        assert(s.drop_last().take(trim_end(s).len() as int) =~= s.take(trim_end(s).len() as int));
    } else {
        assert(s.take(s.len() as int) =~= s);
    }
}

/// Trimming text that is already trimmed changes nothing.
pub proof fn lemma_trimmed_idempotent(s: Seq<char>)
    ensures
        trimmed(trimmed(s)) == trimmed(s),
{
    let t = trim_start(s);
    lemma_trim_start_shape(s);
    let u = trim_end(t);
    lemma_trim_end_shape(t);
    if u.len() > 0 {
        assert(u[0] == t.take(u.len() as int)[0]);
        assert(u[0] == t[0]);
    }
    assert(trim_start(u) == u);
    assert(trim_end(u) == u);
}

/// Text made only of white space, the empty text among it, is blank:
/// trimming leaves nothing of it.
pub proof fn lemma_white_space_is_blank(s: Seq<char>)
    requires
        forall|i: int| 0 <= i < s.len() ==> is_white_space(#[trigger] s[i]),
    ensures
        is_blank(s),
        trimmed(s).len() == 0,
    decreases s.len(),
{
    if s.len() > 0 {
        let rest = s.drop_first();
        assert forall|i: int| 0 <= i < rest.len() implies is_white_space(#[trigger] rest[i]) by {
            assert(rest[i] == s[i + 1]);
        }
        lemma_white_space_is_blank(rest);
        assert(is_white_space(s[0]));
        assert(trim_start(s) == trim_start(rest));
    }
}

/// Lexicographic order on labels, character by character by code point,
/// which is the order `str::cmp` gives (UTF-8 keeps code point order).
pub open spec fn label_lt(a: Seq<char>, b: Seq<char>) -> bool
    decreases a.len(),
{
    if b.len() == 0 {
        false
    } else if a.len() == 0 {
        true
    } else if (a[0] as u32) < (b[0] as u32) {
        true
    } else if a[0] == b[0] {
        label_lt(a.drop_first(), b.drop_first())
    } else {
        false
    }
}

pub proof fn lemma_label_lt_irreflexive(a: Seq<char>)
    ensures
        !label_lt(a, a),
    decreases a.len(),
{
    if a.len() > 0 {
        lemma_label_lt_irreflexive(a.drop_first());
    }
}

pub proof fn lemma_label_lt_asymmetric(a: Seq<char>, b: Seq<char>)
    ensures
        label_lt(a, b) ==> !label_lt(b, a),
    decreases a.len(),
{
    if a.len() > 0 && b.len() > 0 && a[0] == b[0] {
        lemma_label_lt_asymmetric(a.drop_first(), b.drop_first());
    }
}

pub proof fn lemma_label_lt_transitive(a: Seq<char>, b: Seq<char>, c: Seq<char>)
    requires
        label_lt(a, b),
        label_lt(b, c),
    ensures
        label_lt(a, c),
    decreases a.len(),
{
    if a.len() > 0 && b.len() > 0 && c.len() > 0 && a[0] == b[0] && b[0] == c[0] {
        lemma_label_lt_transitive(a.drop_first(), b.drop_first(), c.drop_first());
    }
}

pub proof fn lemma_label_lt_total(a: Seq<char>, b: Seq<char>)
    ensures
        a == b || label_lt(a, b) || label_lt(b, a),
    decreases a.len(),
{
    if a.len() > 0 && b.len() > 0 && a[0] == b[0] {
        lemma_label_lt_total(a.drop_first(), b.drop_first());
        if a.drop_first() == b.drop_first() {
            assert(a =~= seq![a[0]] + a.drop_first());
            assert(b =~= seq![b[0]] + b.drop_first());
        }
    } else if a.len() == 0 && b.len() == 0 {
        assert(a =~= b);
    } else if a.len() > 0 && b.len() > 0 {
        let x = a[0];
        let y = b[0];
        assert(x != y);
        lemma_char_code_injective(x, y);
    }
}

/// Distinct characters have distinct code points.
pub proof fn lemma_char_code_injective(a: char, b: char)
    ensures
        (a as u32) == (b as u32) <==> a == b,
{
}

/// The outcome of comparing two labels.
#[derive(Clone, Copy, Debug, PartialEq, Eq, Structural)]
pub enum LabelOrder {
    Less,
    Equal,
    Greater,
}

/// Compares two labels in the order of `label_lt`.
pub fn compare_labels(a: &str, b: &str) -> (r: LabelOrder)
    ensures
        r == LabelOrder::Less <==> label_lt(a@, b@),
        r == LabelOrder::Equal <==> a@ == b@,
        r == LabelOrder::Greater <==> label_lt(b@, a@),
{
    proof {
        lemma_label_lt_irreflexive(a@);
        lemma_label_lt_asymmetric(a@, b@);
        lemma_label_lt_total(a@, b@);
    }
    let va = chars_of(a);
    let vb = chars_of(b);
    let mut i: usize = 0;
    assert(a@.skip(0) =~= a@);
    assert(b@.skip(0) =~= b@);
    while i < va.len() && i < vb.len()
        invariant
            va@ == a@,
            vb@ == b@,
            i <= va@.len(),
            i <= vb@.len(),
            va@.take(i as int) == vb@.take(i as int),
            label_lt(a@, b@) == label_lt(a@.skip(i as int), b@.skip(i as int)),
            label_lt(b@, a@) == label_lt(b@.skip(i as int), a@.skip(i as int)),
        decreases va.len() - i,
    {
        let xa = va[i];
        let xb = vb[i];
        let ca = xa as u32;
        let cb = xb as u32;
        if ca < cb {
            return LabelOrder::Less;
        }
        if cb < ca {
            return LabelOrder::Greater;
        }
        proof {
            lemma_char_code_injective(xa, xb);
            assert(a@.skip(i as int).drop_first() =~= a@.skip(i + 1));
            assert(b@.skip(i as int).drop_first() =~= b@.skip(i + 1));
            assert(va@.take(i + 1) =~= va@.take(i as int).push(va@[i as int]));
            assert(vb@.take(i + 1) =~= vb@.take(i as int).push(vb@[i as int]));
        }
        i = i + 1;
    }
    if va.len() == vb.len() {
        proof {
            assert(a@ =~= va@.take(i as int));
            assert(b@ =~= vb@.take(i as int));
        }
        LabelOrder::Equal
    } else if va.len() < vb.len() {
        proof {
            assert(a@.skip(i as int).len() == 0);
        }
        LabelOrder::Less
    } else {
        proof {
            assert(b@.skip(i as int).len() == 0);
        }
        LabelOrder::Greater
    }
}

} // verus!
