//! The engine's standing guarantees, stated and proved over the
//! mathematical names that the contracts use.
use vstd::prelude::*;
use crate::engine::SpecAction;
use crate::engine::spec_pair_action;
use crate::order::lemma_lex_refl;
use crate::order::lemma_lex_total_ordering;
use crate::order::lemma_name_sorted_is_sorted_by;
use crate::order::lex_le;
use crate::order::lex_leq;
use crate::order::name_sorted;
use crate::filename::DOT;
use crate::filename::ExtClass;
use crate::filename::ext_of;
use crate::filename::is_class_name;
use crate::filename::lemma_classes_disjoint;
use crate::filename::lemma_split_identity;
use crate::filename::lemma_split_of_build;
use crate::filename::no_dot;
use crate::filename::rename_target;
use crate::filename::stem_of;
use crate::scan::ScanEntry;
use crate::scan::class_names;
use crate::scan::lemma_spec_scan_members;
use crate::scan::spec_scan;

verus! {

broadcast use vstd::seq_lib::group_to_multiset_ensures, vstd::multiset::group_multiset_axioms;

/// A RAW file renamed after its JPG sibling matches that sibling from then
/// on: deciding the same pair again keeps the adopted name, and the adopted
/// name is still a RAW name bearing the original RAW extension.
pub proof fn lemma_rename_restores_match(raw: Seq<u8>, jpg: Seq<u8>)
    requires
        is_class_name(ExtClass::Raw, raw),
        ext_of(jpg) is Some,
    ensures
        spec_pair_action(rename_target(raw, jpg), jpg) is Keep,
        stem_of(rename_target(raw, jpg)) == stem_of(jpg),
        ext_of(rename_target(raw, jpg)) == ext_of(raw),
        is_class_name(ExtClass::Raw, rename_target(raw, jpg)),
{
    lemma_split_identity(jpg);
    lemma_split_identity(raw);
    lemma_split_of_build(stem_of(jpg), ext_of(raw).unwrap());
}

/// A pair whose stems already agree is its own adopted form: renaming it
/// would reproduce the very name the RAW file bears.
pub proof fn lemma_matching_pair_keeps_name(raw: Seq<u8>, jpg: Seq<u8>)
    requires
        is_class_name(ExtClass::Raw, raw),
        stem_of(raw) == stem_of(jpg),
    ensures
        rename_target(raw, jpg) == raw,
{
    lemma_split_identity(raw);
}

/// The adopted name of a RAW file keeps a RAW extension, and the RAW and
/// JPG extension sets share nothing, so a planned rename can never land on
/// any JPG-classified name: the JPG files are spared whatever happens.
pub proof fn lemma_target_spares_jpg_names(raw: Seq<u8>, jpg: Seq<u8>, other: Seq<u8>)
    requires
        is_class_name(ExtClass::Raw, raw),
        ext_of(jpg) is Some,
        is_class_name(ExtClass::Jpg, other),
    ensures
        rename_target(raw, jpg) != other,
{
    lemma_rename_restores_match(raw, jpg);
    lemma_classes_disjoint(other);
}

/// The names the RAW files bear after one pass, in pair order: each RAW
/// file's sibling stem joined with the RAW file's own extension. A pair
/// whose stems already agree keeps its name, which has that very form.
pub open spec fn adopted_names(raw: Seq<Seq<u8>>, jpg: Seq<Seq<u8>>) -> Seq<Seq<u8>>
    recommends
        raw.len() == jpg.len(),
{
    Seq::new(raw.len(), |i: int| rename_target(raw[i], jpg[i]))
}

/// A name's stem followed by the separator dot: what of the name decides
/// its place among names of the same shape, apart from its extension.
pub open spec fn stem_key(n: Seq<u8>) -> Seq<u8> {
    stem_of(n) + seq![DOT]
}

pub open spec fn stem_keys(s: Seq<Seq<u8>>) -> Seq<Seq<u8>> {
    s.map_values(|n: Seq<u8>| stem_key(n))
}

/// Rearranging a list of names rearranges their stem keys the same way.
proof fn lemma_keys_of_rearrangement(s1: Seq<Seq<u8>>, s2: Seq<Seq<u8>>)
    requires
        s1.to_multiset() == s2.to_multiset(),
    ensures
        stem_keys(s1).to_multiset() == stem_keys(s2).to_multiset(),
    decreases s1.len(),
{
    if s1.len() == 0 {
        assert(s1.to_multiset().len() == 0);
        assert(s2.len() == 0);
        assert(stem_keys(s1) =~= stem_keys(s2));
    } else {
        let x = s1[0];
        assert(s1.contains(x));
        assert(s1.to_multiset().count(x) > 0);
        assert(s2.to_multiset().count(x) > 0);
        assert(s2.contains(x));
        let i = choose|i: int| 0 <= i < s2.len() && s2[i] == x;
        let r1 = s1.remove(0);
        let r2 = s2.remove(i);
        assert(r1.to_multiset() == s1.to_multiset().remove(x));
        assert(r2.to_multiset() == s2.to_multiset().remove(x));
        lemma_keys_of_rearrangement(r1, r2);
        let m1 = stem_keys(s1);
        let m2 = stem_keys(s2);
        assert(m1.remove(0) =~= stem_keys(r1));
        assert(m2.remove(i) =~= stem_keys(r2));
        assert(m1.remove(0).to_multiset() == m1.to_multiset().remove(m1[0]));
        assert(m2.remove(i).to_multiset() == m2.to_multiset().remove(m2[i]));
        assert(m1[0] == stem_key(x));
        assert(m2[i] == stem_key(x));
        assert(m1.contains(m1[0]));
        assert(m1.to_multiset().count(stem_key(x)) > 0);
        assert(m2.contains(m2[i]));
        assert(m2.to_multiset().count(stem_key(x)) > 0);
        assert forall|y: Seq<u8>| m1.to_multiset().count(y) == m2.to_multiset().count(y) by {
            assert(m1.to_multiset().remove(stem_key(x)).count(y) == m2.to_multiset().remove(
                stem_key(x),
            ).count(y));
        }
        assert(m1.to_multiset() =~= m2.to_multiset());
    }
}

/// Two names made of dot-free stems compare as their stem keys do,
/// whatever extensions follow, as long as the stems differ.
proof fn lemma_sep_order(s: Seq<u8>, t: Seq<u8>, e1: Seq<u8>, e2: Seq<u8>)
    requires
        no_dot(s),
        no_dot(t),
        s != t,
    ensures
        lex_le(s + seq![DOT] + e1, t + seq![DOT] + e2) == lex_le(s + seq![DOT], t + seq![DOT]),
    decreases s.len(),
{
    let a = s + seq![DOT] + e1;
    let b = t + seq![DOT] + e2;
    let ka = s + seq![DOT];
    let kb = t + seq![DOT];
    if s.len() == 0 {
        assert(t.len() > 0) by {
            if t.len() == 0 {
                assert(s =~= t);
            }
        }
        assert(a[0] == DOT);
        assert(b[0] == t[0]);
        assert(t[0] != DOT);
        assert(ka[0] == DOT);
        assert(kb[0] == t[0]);
    } else if t.len() == 0 {
        assert(b[0] == DOT);
        assert(a[0] == s[0]);
        assert(s[0] != DOT);
        assert(kb[0] == DOT);
        assert(ka[0] == s[0]);
    } else if s[0] != t[0] {
        assert(a[0] == s[0] && b[0] == t[0]);
        assert(ka[0] == s[0] && kb[0] == t[0]);
    } else {
        let s1 = s.drop_first();
        let t1 = t.drop_first();
        assert(s1 != t1) by {
            if s1 == t1 {
                assert(s.len() == s1.len() + 1);
                assert(t.len() == t1.len() + 1);
                assert(s.len() == t.len());
                assert forall|i: int| 0 <= i < s.len() implies s[i] == t[i] by {
                    if i >= 1 {
                        assert(s[i] == s1[i - 1]);
                        assert(t[i] == t1[i - 1]);
                    }
                }
                assert(s =~= t);
            }
        }
        lemma_sep_order(s1, t1, e1, e2);
        assert(a[0] == s[0] && b[0] == t[0]);
        assert(ka[0] == s[0] && kb[0] == t[0]);
        assert(a.drop_first() =~= s1 + seq![DOT] + e1);
        assert(b.drop_first() =~= t1 + seq![DOT] + e2);
        assert(ka.drop_first() =~= s1 + seq![DOT]);
        assert(kb.drop_first() =~= t1 + seq![DOT]);
    }
}

/// Among names that split into dot-free stems, the ascending order of the
/// full names keeps their stem keys ascending as well.
proof fn lemma_sorted_keys(s: Seq<Seq<u8>>)
    requires
        forall|i: int| 0 <= i < s.len() ==> ext_of(#[trigger] s[i]) is Some,
        forall|i: int| 0 <= i < s.len() ==> no_dot(stem_of(#[trigger] s[i])),
        name_sorted(s),
    ensures
        name_sorted(stem_keys(s)),
{
    let keys = stem_keys(s);
    assert forall|i: int, j: int| 0 <= i < j < keys.len() implies lex_le(keys[i], keys[j]) by {
        assert(keys[i] == stem_key(s[i]));
        assert(keys[j] == stem_key(s[j]));
        if stem_of(s[i]) == stem_of(s[j]) {
            lemma_lex_refl(keys[i]);
        } else {
            assert(lex_le(s[i], s[j]));
            lemma_split_identity(s[i]);
            lemma_split_identity(s[j]);
            lemma_sep_order(
                stem_of(s[i]),
                stem_of(s[j]),
                ext_of(s[i]).unwrap(),
                ext_of(s[j]).unwrap(),
            );
        }
    }
}

/// Once every RAW file bears its adopted name, a second pass over the very
/// same directory pairs each renamed file with the same JPG sibling and
/// finds every stem already matching: it plans no rename at all. The law
/// asks the JPG stems to be dot-free; a stem with a dot of its own can
/// change its place among the re-sorted names and make the pairing drift.
pub proof fn lemma_second_pass_plans_nothing(
    raw: Seq<Seq<u8>>,
    jpg: Seq<Seq<u8>>,
    renamed: Seq<Seq<u8>>,
)
    requires
        raw.len() == jpg.len(),
        forall|i: int| 0 <= i < raw.len() ==> is_class_name(ExtClass::Raw, #[trigger] raw[i]),
        forall|i: int| 0 <= i < jpg.len() ==> is_class_name(ExtClass::Jpg, #[trigger] jpg[i]),
        forall|i: int| 0 <= i < jpg.len() ==> no_dot(stem_of(#[trigger] jpg[i])),
        name_sorted(jpg),
        name_sorted(renamed),
        renamed.to_multiset() == adopted_names(raw, jpg).to_multiset(),
    ensures
        renamed.len() == jpg.len(),
        forall|i: int|
            0 <= i < renamed.len() ==> spec_pair_action(#[trigger] renamed[i], jpg[i]) is Keep,
{
    let adopted = adopted_names(raw, jpg);
    assert(renamed.to_multiset().len() == renamed.len());
    assert(adopted.to_multiset().len() == adopted.len());
    assert(renamed.len() == jpg.len());
    assert forall|i: int| 0 <= i < adopted.len() implies ext_of(#[trigger] adopted[i]) is Some
        && no_dot(stem_of(adopted[i])) && stem_of(adopted[i]) == stem_of(jpg[i])
        && is_class_name(ExtClass::Raw, adopted[i]) by {
        lemma_rename_restores_match(raw[i], jpg[i]);
    }
    assert forall|k: int| 0 <= k < renamed.len() implies ext_of(#[trigger] renamed[k]) is Some
        && no_dot(stem_of(renamed[k])) by {
        assert(renamed.contains(renamed[k]));
        assert(renamed.to_multiset().count(renamed[k]) > 0);
        assert(adopted.to_multiset().count(renamed[k]) > 0);
        assert(adopted.contains(renamed[k]));
        let m = choose|m: int| 0 <= m < adopted.len() && adopted[m] == renamed[k];
        assert(ext_of(adopted[m]) is Some);
    }
    lemma_sorted_keys(renamed);
    assert forall|i: int| 0 <= i < jpg.len() implies ext_of(#[trigger] jpg[i]) is Some by {
        assert(is_class_name(ExtClass::Jpg, jpg[i]));
    }
    lemma_sorted_keys(jpg);
    lemma_keys_of_rearrangement(renamed, adopted);
    assert(stem_keys(adopted) =~= stem_keys(jpg)) by {
        assert forall|i: int| 0 <= i < adopted.len() implies stem_keys(adopted)[i] == stem_keys(
            jpg,
        )[i] by {
            assert(stem_of(adopted[i]) == stem_of(jpg[i]));
        }
    }
    lemma_lex_total_ordering();
    lemma_name_sorted_is_sorted_by(stem_keys(renamed));
    lemma_name_sorted_is_sorted_by(stem_keys(jpg));
    vstd::seq_lib::lemma_sorted_unique(stem_keys(renamed), stem_keys(jpg), lex_leq());
    assert forall|i: int| 0 <= i < renamed.len() implies spec_pair_action(
        #[trigger] renamed[i],
        jpg[i],
    ) is Keep by {
        assert(stem_keys(renamed)[i] == stem_keys(jpg)[i]);
        let u1 = stem_of(renamed[i]);
        let u2 = stem_of(jpg[i]);
        assert(u1 + seq![DOT] == u2 + seq![DOT]);
        assert(u1 =~= u2) by {
            assert((u1 + seq![DOT]).len() == (u2 + seq![DOT]).len());
            assert forall|p: int| 0 <= p < u1.len() implies u1[p] == u2[p] by {
                assert((u1 + seq![DOT])[p] == u1[p]);
                assert((u2 + seq![DOT])[p] == u2[p]);
            }
        }
    }
}

/// The same law over two scans of the directory. Run the engine once and
/// carry every planned rename out: the JPG files stand untouched and the
/// RAW files now bear their adopted names. Scanning the directory again
/// then pairs every RAW file with a sibling whose stem it already bears,
/// and the second run plans no rename.
pub proof fn lemma_second_scan_all_matched(first: Seq<ScanEntry>, second: Seq<ScanEntry>)
    requires
        spec_scan(first, ExtClass::Raw).len() == spec_scan(first, ExtClass::Jpg).len(),
        forall|i: int|
            0 <= i < spec_scan(first, ExtClass::Jpg).len() ==> no_dot(
                stem_of(#[trigger] spec_scan(first, ExtClass::Jpg)[i]),
            ),
        spec_scan(second, ExtClass::Jpg) == spec_scan(first, ExtClass::Jpg),
        spec_scan(second, ExtClass::Raw).to_multiset() == adopted_names(
            spec_scan(first, ExtClass::Raw),
            spec_scan(first, ExtClass::Jpg),
        ).to_multiset(),
    ensures
        spec_scan(second, ExtClass::Raw).len() == spec_scan(second, ExtClass::Jpg).len(),
        forall|i: int|
            0 <= i < spec_scan(second, ExtClass::Raw).len() ==> spec_pair_action(
                #[trigger] spec_scan(second, ExtClass::Raw)[i],
                spec_scan(second, ExtClass::Jpg)[i],
            ) is Keep,
{
    let r1 = spec_scan(first, ExtClass::Raw);
    let j = spec_scan(first, ExtClass::Jpg);
    let r2 = spec_scan(second, ExtClass::Raw);
    lemma_spec_scan_members(first, ExtClass::Raw);
    lemma_spec_scan_members(first, ExtClass::Jpg);
    lemma_lex_total_ordering();
    class_names(first, ExtClass::Jpg).lemma_sort_by_ensures(lex_leq());
    class_names(second, ExtClass::Raw).lemma_sort_by_ensures(lex_leq());
    lemma_name_sorted_is_sorted_by(j);
    lemma_name_sorted_is_sorted_by(r2);
    lemma_second_pass_plans_nothing(r1, j, r2);
}

} // verus!
