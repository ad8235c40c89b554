//! The model of a file name: a sequence of bytes split into a stem and an
//! extension at the last dot, the way the platform's path routines split it.
use vstd::prelude::*;

verus! {

/// Byte value of the ASCII dot that separates a stem from an extension.
pub const DOT: u8 = 46;

/// Index of the last dot of `s` that lies in positions `1 .. bound`, if any.
/// A dot at position 0 is a leading dot of a hidden file and never separates.
pub open spec fn last_dot_below(s: Seq<u8>, bound: int) -> Option<int>
    decreases bound,
{
    if bound <= 1 {
        None::<int>
    } else if s[bound - 1] == DOT {
        Some(bound - 1)
    } else {
        last_dot_below(s, bound - 1)
    }
}

/// Index of the dot that separates the stem from the extension, if the name
/// has an extension at all.
pub open spec fn sep_index(s: Seq<u8>) -> Option<int> {
    last_dot_below(s, s.len() as int)
}

/// The file name without its extension (the whole name when there is none).
pub open spec fn stem_of(s: Seq<u8>) -> Seq<u8> {
    match sep_index(s) {
        Some(k) => s.subrange(0, k),
        None => s,
    }
}

/// The extension of the file name, without the dot.
pub open spec fn ext_of(s: Seq<u8>) -> Option<Seq<u8>> {
    match sep_index(s) {
        Some(k) => Some(s.subrange(k + 1, s.len() as int)),
        None => None::<Seq<u8>>,
    }
}

/// Finds the index of the separator dot of `name`, if there is one.
pub fn find_sep(name: &Vec<u8>) -> (r: Option<usize>)
    ensures
        match r {
            Some(k) => sep_index(name@) == Some(k as int),
            None => sep_index(name@) is None,
        },
{
    let mut i: usize = name.len();
    while i > 1
        invariant
            i <= name.len(),
            last_dot_below(name@, name@.len() as int) == last_dot_below(name@, i as int),
        decreases i,
    {
        if name[i - 1] == DOT {
            return Some(i - 1);
        }
        i = i - 1;
    }
    None
}

/// Copies the bytes of `name` in positions `lo .. hi` into a fresh vector.
fn copy_range(name: &Vec<u8>, lo: usize, hi: usize) -> (r: Vec<u8>)
    requires
        lo <= hi <= name.len(),
    ensures
        r@ == name@.subrange(lo as int, hi as int),
{
    let mut out: Vec<u8> = Vec::new();
    let mut i: usize = lo;
    while i < hi
        invariant
            lo <= i <= hi <= name.len(),
            out@ == name@.subrange(lo as int, i as int),
        decreases hi - i,
    {
        out.push(name[i]);
        proof {
            assert(out@ =~= name@.subrange(lo as int, i + 1));
        }
        i = i + 1;
    }
    out
}

/// The stem of `name` as a fresh vector.
pub fn stem_bytes(name: &Vec<u8>) -> (r: Vec<u8>)
    ensures
        r@ == stem_of(name@),
{
    proof {
        lemma_sep_index_bounds(name@);
    }
    match find_sep(name) {
        Some(k) => copy_range(name, 0, k),
        None => {
            let r = copy_range(name, 0, name.len());
            proof {
                assert(r@ =~= name@);
            }
            r
        },
    }
}

/// The extension of `name` as a fresh vector, if the name has one.
pub fn extension_bytes(name: &Vec<u8>) -> (r: Option<Vec<u8>>)
    ensures
        match r {
            Some(e) => ext_of(name@) == Some(e@),
            None => ext_of(name@) is None,
        },
{
    proof {
        lemma_sep_index_bounds(name@);
    }
    match find_sep(name) {
        Some(k) => {
            let n = name.len();
            proof {
                assert(sep_index(name@) == Some(k as int));
                assert(1 <= (k as int) && (k as int) < name@.len());
                assert(k < n);
            }
            Some(copy_range(name, k + 1, n))
        },
        None => None,
    }
}

/// Whatever `sep_index` returns lies strictly between the first byte and the
/// end of the name.
pub proof fn lemma_sep_index_bounds(s: Seq<u8>)
    ensures
        match sep_index(s) {
            Some(k) => 1 <= k < s.len(),
            None => true,
        },
{
    lemma_last_dot_below_bounds(s, s.len() as int);
}

proof fn lemma_last_dot_below_bounds(s: Seq<u8>, bound: int)
    ensures
        match last_dot_below(s, bound) {
            Some(k) => 1 <= k < bound,
            None => true,
        },
    decreases bound,
{
    if bound > 1 && s[bound - 1] != DOT {
        lemma_last_dot_below_bounds(s, bound - 1);
    }
}

/// No byte of `s` is a dot.
pub open spec fn no_dot(s: Seq<u8>) -> bool {
    forall|i: int| 0 <= i < s.len() ==> s[i] != DOT
}

/// The separator is a dot and the last one: only dot-free bytes follow it.
/// A name without a separator has no dot past its first byte.
pub proof fn lemma_sep_characterisation(s: Seq<u8>)
    ensures
        match sep_index(s) {
            Some(k) => 1 <= k < s.len() && s[k] == DOT && (forall|i: int|
                k < i < s.len() ==> s[i] != DOT),
            None => forall|i: int| 1 <= i < s.len() ==> s[i] != DOT,
        },
{
    lemma_last_dot_below_no_later(s, s.len() as int);
}

proof fn lemma_last_dot_below_no_later(s: Seq<u8>, bound: int)
    ensures
        match last_dot_below(s, bound) {
            Some(k) => 1 <= k < bound && s[k] == DOT && (forall|i: int|
                k < i < bound ==> s[i] != DOT),
            None => forall|i: int| 1 <= i < bound ==> s[i] != DOT,
        },
    decreases bound,
{
    if bound > 1 && s[bound - 1] != DOT {
        lemma_last_dot_below_no_later(s, bound - 1);
    }
}

proof fn lemma_last_dot_below_finds(s: Seq<u8>, k: int, bound: int)
    requires
        1 <= k < bound,
        s[k] == DOT,
        forall|i: int| k < i < bound ==> s[i] != DOT,
    ensures
        last_dot_below(s, bound) == Some(k),
    decreases bound,
{
    if bound - 1 > k {
        lemma_last_dot_below_finds(s, k, bound - 1);
    }
}

/// A dot past the first byte with only dot-free bytes after it is the
/// separator.
pub proof fn lemma_sep_at(s: Seq<u8>, k: int)
    requires
        1 <= k < s.len(),
        s[k] == DOT,
        forall|i: int| k < i < s.len() ==> s[i] != DOT,
    ensures
        sep_index(s) == Some(k),
{
    lemma_last_dot_below_finds(s, k, s.len() as int);
}

/// A name with an extension is its stem, a dot, and its extension, in that
/// order; the stem is never empty and the extension holds no dot.
pub proof fn lemma_split_identity(s: Seq<u8>)
    requires
        sep_index(s) is Some,
    ensures
        s == stem_of(s) + seq![DOT] + ext_of(s).unwrap(),
        stem_of(s).len() >= 1,
        no_dot(ext_of(s).unwrap()),
{
    lemma_sep_characterisation(s);
    let k = sep_index(s).unwrap();
    assert(s =~= stem_of(s) + seq![DOT] + ext_of(s).unwrap());
}

/// Splitting a name built from a nonempty stem, a dot, and a dot-free
/// extension gives those parts back.
pub proof fn lemma_split_of_build(u: Seq<u8>, e: Seq<u8>)
    requires
        u.len() >= 1,
        no_dot(e),
    ensures
        sep_index(u + seq![DOT] + e) == Some(u.len() as int),
        stem_of(u + seq![DOT] + e) == u,
        ext_of(u + seq![DOT] + e) == Some(e),
{
    let t = u + seq![DOT] + e;
    assert(t[u.len() as int] == DOT);
    assert(forall|i: int| u.len() < i < t.len() ==> t[i] == e[i - u.len() - 1]);
    lemma_sep_at(t, u.len() as int);
    assert(stem_of(t) =~= u);
    assert(ext_of(t).unwrap() =~= e);
}

/// ASCII byte values of the letters the extension sets use.
pub const LR: u8 = 114;

pub const LA: u8 = 97;

pub const LW: u8 = 119;

pub const LF: u8 = 102;

pub const LN: u8 = 110;

pub const LE: u8 = 101;

pub const LJ: u8 = 106;

pub const LP: u8 = 112;

pub const LG: u8 = 103;

/// The fixed set of RAW extensions.
pub open spec fn raw_ext(e: Seq<u8>) -> bool {
    e == seq![LR, LA, LW] || e == seq![LR, LA, LF] || e == seq![LN, LE, LF]
}

/// The fixed set of JPG extensions.
pub open spec fn jpg_ext(e: Seq<u8>) -> bool {
    e == seq![LJ, LP, LG] || e == seq![LJ, LP, LE, LG]
}

/// The two extension classes the scanner tells apart.
#[derive(Clone, Copy, Debug)]
pub enum ExtClass {
    Raw,
    Jpg,
}

pub open spec fn class_ext(class: ExtClass, e: Seq<u8>) -> bool {
    match class {
        ExtClass::Raw => raw_ext(e),
        ExtClass::Jpg => jpg_ext(e),
    }
}

/// A file name belongs to a class when its extension lies in the class's set.
pub open spec fn is_class_name(class: ExtClass, n: Seq<u8>) -> bool {
    match ext_of(n) {
        Some(e) => class_ext(class, e),
        None => false,
    }
}

/// No extension lies in both classes, so no name does either.
pub proof fn lemma_classes_disjoint(n: Seq<u8>)
    ensures
        !(is_class_name(ExtClass::Raw, n) && is_class_name(ExtClass::Jpg, n)),
{
}

/// Compares the contents of two byte vectors.
pub fn bytes_equal(a: &Vec<u8>, b: &Vec<u8>) -> (r: bool)
    ensures
        r == (a@ == b@),
{
    if a.len() != b.len() {
        return false;
    }
    let n = a.len();
    let mut i: usize = 0;
    while i < n
        invariant
            i <= n,
            n == a.len() == b.len(),
            forall|j: int| 0 <= j < i ==> a@[j] == b@[j],
        decreases n - i,
    {
        if a[i] != b[i] {
            return false;
        }
        i = i + 1;
    }
    proof {
        assert(a@ =~= b@);
    }
    true
}

fn eq3(e: &Vec<u8>, a: u8, b: u8, c: u8) -> (r: bool)
    ensures
        r == (e@ == seq![a, b, c]),
{
    if e.len() == 3 && e[0] == a && e[1] == b && e[2] == c {
        proof {
            assert(e@ =~= seq![a, b, c]);
        }
        true
    } else {
        false
    }
}

fn eq4(e: &Vec<u8>, a: u8, b: u8, c: u8, d: u8) -> (r: bool)
    ensures
        r == (e@ == seq![a, b, c, d]),
{
    if e.len() == 4 && e[0] == a && e[1] == b && e[2] == c && e[3] == d {
        proof {
            assert(e@ =~= seq![a, b, c, d]);
        }
        true
    } else {
        false
    }
}

/// Decides whether `name` belongs to the extension class.
pub fn name_in_class(class: ExtClass, name: &Vec<u8>) -> (r: bool)
    ensures
        r == is_class_name(class, name@),
{
    match extension_bytes(name) {
        Some(e) => match class {
            ExtClass::Raw => eq3(&e, LR, LA, LW) || eq3(&e, LR, LA, LF) || eq3(
                &e,
                LN,
                LE,
                LF,
            ),
            ExtClass::Jpg => eq3(&e, LJ, LP, LG) || eq4(&e, LJ, LP, LE, LG),
        },
        None => false,
    }
}

/// Copies a file name into a fresh vector.
pub fn clone_name(name: &Vec<u8>) -> (r: Vec<u8>)
    ensures
        r@ == name@,
{
    let n = name.len();
    let mut out: Vec<u8> = Vec::new();
    let mut i: usize = 0;
    while i < n
        invariant
            i <= n,
            n == name.len(),
            out@ == name@.subrange(0, i as int),
        decreases n - i,
    {
        out.push(name[i]);
        proof {
            assert(out@ =~= name@.subrange(0, i + 1));
        }
        i = i + 1;
    }
    proof {
        assert(out@ =~= name@);
    }
    out
}

/// Decides whether the two names share a stem.
pub fn stems_equal(a: &Vec<u8>, b: &Vec<u8>) -> (r: bool)
    ensures
        r == (stem_of(a@) == stem_of(b@)),
{
    let sa = stem_bytes(a);
    let sb = stem_bytes(b);
    bytes_equal(&sa, &sb)
}

/// The name a RAW file adopts: its sibling's stem with its own extension.
pub open spec fn rename_target(raw: Seq<u8>, jpg: Seq<u8>) -> Seq<u8> {
    stem_of(jpg) + seq![DOT] + ext_of(raw).unwrap()
}

/// Builds the adopted name of a RAW file from its own name and its sibling's.
pub fn make_target(raw: &Vec<u8>, jpg: &Vec<u8>) -> (r: Vec<u8>)
    requires
        ext_of(raw@) is Some,
    ensures
        r@ == rename_target(raw@, jpg@),
{
    let mut out = stem_bytes(jpg);
    out.push(DOT);
    match extension_bytes(raw) {
        Some(e) => {
            let n = e.len();
            let mut i: usize = 0;
            while i < n
                invariant
                    i <= n,
                    n == e.len(),
                    out@ == stem_of(jpg@) + seq![DOT] + e@.subrange(0, i as int),
                decreases n - i,
            {
                out.push(e[i]);
                proof {
                    assert(out@ =~= stem_of(jpg@) + seq![DOT] + e@.subrange(0, i + 1));
                }
                i = i + 1;
            }
            proof {
                assert(e@.subrange(0, n as int) =~= e@);
            }
            out
        },
        None => {
            proof {
                assert(false);
            }
            out
        },
    }
}

} // verus!
