//! The listing order for device snapshots: by display name, then by id.

use vstd::prelude::*;

use crate::audio::AudioDeviceInfo;
use crate::volume::valid_volume;

verus! {

/// Lexicographic order on character sequences, comparing Unicode scalar
/// values position by position.
pub open spec fn lex_le(a: Seq<char>, b: Seq<char>) -> bool
    decreases a.len(),
{
    if a.len() == 0 {
        true
    } else if b.len() == 0 {
        false
    } else if (a[0] as u32) < (b[0] as u32) {
        true
    } else if (b[0] as u32) < (a[0] as u32) {
        false
    } else {
        lex_le(a.skip(1), b.skip(1))
    }
}

/// Any two character sequences are ordered one way or the other.
pub proof fn lemma_lex_le_total(a: Seq<char>, b: Seq<char>)
    ensures
        lex_le(a, b) || lex_le(b, a),
    decreases a.len(),
{
    if a.len() > 0 && b.len() > 0 && a[0] as u32 == b[0] as u32 {
        lemma_lex_le_total(a.skip(1), b.skip(1));
    }
}

/// Characters with the same Unicode scalar value are the same character.
proof fn lemma_char_code_injective(c1: char, c2: char)
    requires
        c1 as u32 == c2 as u32,
    ensures
        c1 == c2,
{
}

/// Two sequences each at most the other are the same sequence.
pub proof fn lemma_lex_le_antisym(a: Seq<char>, b: Seq<char>)
    requires
        lex_le(a, b),
        lex_le(b, a),
    ensures
        a == b,
    decreases a.len(),
{
    if a.len() == 0 {
        assert(b.len() == 0);
        assert(a =~= b);
    } else {
        assert(b.len() > 0);
        assert(a[0] as u32 == b[0] as u32);
        lemma_char_code_injective(a[0], b[0]);
        lemma_lex_le_antisym(a.skip(1), b.skip(1));
        assert(a.len() == b.len());
        assert forall|i: int| 0 <= i < a.len() implies a[i] == b[i] by {
            if i > 0 {
                assert(a.skip(1)[i - 1] == a[i]);
                assert(b.skip(1)[i - 1] == b[i]);
            }
        }
        assert(a =~= b);
    }
}

/// The order is transitive.
pub proof fn lemma_lex_le_trans(a: Seq<char>, b: Seq<char>, c: Seq<char>)
    requires
        lex_le(a, b),
        lex_le(b, c),
    ensures
        lex_le(a, c),
    decreases a.len(),
{
    if a.len() > 0 && b.len() > 0 && c.len() > 0 && a[0] as u32 == b[0] as u32 && b[0] as u32
        == c[0] as u32 {
        lemma_lex_le_trans(a.skip(1), b.skip(1), c.skip(1));
    }
}

/// The listing order on device snapshots: by name, with the id as the
/// tiebreak.
pub open spec fn info_le(a: AudioDeviceInfo, b: AudioDeviceInfo) -> bool {
    if a.name@ == b.name@ {
        lex_le(a.id@, b.id@)
    } else {
        lex_le(a.name@, b.name@)
    }
}

/// Any two snapshots are ordered one way or the other.
pub proof fn lemma_info_le_total(a: AudioDeviceInfo, b: AudioDeviceInfo)
    ensures
        info_le(a, b) || info_le(b, a),
{
    if a.name@ == b.name@ {
        lemma_lex_le_total(a.id@, b.id@);
    } else {
        lemma_lex_le_total(a.name@, b.name@);
    }
}

/// The listing order is transitive.
pub proof fn lemma_info_le_trans(a: AudioDeviceInfo, b: AudioDeviceInfo, c: AudioDeviceInfo)
    requires
        info_le(a, b),
        info_le(b, c),
    ensures
        info_le(a, c),
{
    if a.name@ == b.name@ && b.name@ == c.name@ {
        lemma_lex_le_trans(a.id@, b.id@, c.id@);
    } else if a.name@ == b.name@ {
        // names of a and c differ as b's does from c's
    } else if b.name@ == c.name@ {
    } else {
        lemma_lex_le_trans(a.name@, b.name@, c.name@);
        if a.name@ == c.name@ {
            lemma_lex_le_antisym(a.name@, b.name@);
        }
    }
}

/// Sorted in the listing order.
pub open spec fn infos_sorted(s: Seq<AudioDeviceInfo>) -> bool {
    forall|i: int, j: int| 0 <= i < j < s.len() ==> info_le(#[trigger] s[i], #[trigger] s[j])
}

/// The view of one snapshot as plain values: `(id, name, max volume)`.
pub open spec fn info_model(i: AudioDeviceInfo) -> (Seq<char>, Seq<char>, u32) {
    (i.id@, i.name@, i.max_volume)
}

/// Compares two strings in the lexicographic order.
pub fn str_lex_le(a: &str, b: &str) -> (r: bool)
    ensures
        r == lex_le(a@, b@),
{
    let a_len = a.unicode_len();
    let b_len = b.unicode_len();
    let mut i: usize = 0;
    proof {
        assert(a@.skip(0) =~= a@);
        assert(b@.skip(0) =~= b@);
    }
    loop
        invariant
            i <= a_len,
            i <= b_len,
            a_len == a@.len(),
            b_len == b@.len(),
            lex_le(a@, b@) == lex_le(a@.skip(i as int), b@.skip(i as int)),
        decreases a@.len() - i,
    {
        if i == a_len {
            return true;
        }
        if i == b_len {
            return false;
        }
        let ca = a.get_char(i);
        let cb = b.get_char(i);
        if (ca as u32) < (cb as u32) {
            return true;
        }
        if (cb as u32) < (ca as u32) {
            return false;
        }
        proof {
            assert(a@.skip(i as int)[0] == a@[i as int]);
            assert(b@.skip(i as int)[0] == b@[i as int]);
            assert(a@.skip(i as int).skip(1) =~= a@.skip(i as int + 1));
            assert(b@.skip(i as int).skip(1) =~= b@.skip(i as int + 1));
        }
        i += 1;
    }
}

/// Compares two snapshots in the listing order.
pub fn info_le_exec(a: &AudioDeviceInfo, b: &AudioDeviceInfo) -> (r: bool)
    ensures
        r == info_le(*a, *b),
{
    if a.name == b.name {
        str_lex_le(a.id.as_str(), b.id.as_str())
    } else {
        str_lex_le(a.name.as_str(), b.name.as_str())
    }
}

/// Sorts a snapshot listing into the listing order; the result holds
/// the same entries (as plain values), sorted.
pub(crate) fn sort_infos(v: Vec<AudioDeviceInfo>) -> (r: Vec<AudioDeviceInfo>)
    requires
        forall|k: int| 0 <= k < v@.len() ==> valid_volume((#[trigger] v@[k]).max_volume),
    ensures
        infos_sorted(r@),
        r@.map_values(|x: AudioDeviceInfo| info_model(x)).to_multiset() == v@.map_values(
            |x: AudioDeviceInfo| info_model(x),
        ).to_multiset(),
        r@.len() == v@.len(),
        forall|k: int| 0 <= k < r@.len() ==> valid_volume((#[trigger] r@[k]).max_volume),
{
    let mut src = v;
    let mut out: Vec<AudioDeviceInfo> = Vec::new();
    let ghost orig = src@;
    proof {
        broadcast use vstd::seq_lib::group_seq_properties;

        assert(out@.map_values(|x: AudioDeviceInfo| info_model(x)).to_multiset().add(
            src@.map_values(|x: AudioDeviceInfo| info_model(x)).to_multiset(),
        ) =~= orig.map_values(|x: AudioDeviceInfo| info_model(x)).to_multiset());
    }
    while src.len() > 0
        invariant
            out@.len() + src@.len() == orig.len(),
            infos_sorted(out@),
            forall|oi: int, sj: int|
                0 <= oi < out@.len() && 0 <= sj < src@.len() ==> info_le(
                    #[trigger] out@[oi],
                    #[trigger] src@[sj],
                ),
            out@.map_values(|x: AudioDeviceInfo| info_model(x)).to_multiset().add(
                src@.map_values(|x: AudioDeviceInfo| info_model(x)).to_multiset(),
            ) == orig.map_values(|x: AudioDeviceInfo| info_model(x)).to_multiset(),
            forall|k: int| 0 <= k < out@.len() ==> valid_volume((#[trigger] out@[k]).max_volume),
            forall|k: int| 0 <= k < src@.len() ==> valid_volume((#[trigger] src@[k]).max_volume),
        decreases src@.len(),
    {
        // select the least remaining entry
        let mut min: usize = 0;
        let mut c: usize = 1;
        proof {
            lemma_info_le_total(src@[0], src@[0]);
        }
        while c < src.len()
            invariant
                min < src@.len(),
                c <= src@.len(),
                forall|k: int| 0 <= k < c ==> info_le(src@[min as int], #[trigger] src@[k]),
            decreases src@.len() - c,
        {
            if info_le_exec(&src[c], &src[min]) {
                proof {
                    assert forall|k: int|
                        0 <= k < c implies info_le(src@[c as int], #[trigger] src@[k]) by {
                        lemma_info_le_trans(src@[c as int], src@[min as int], src@[k]);
                    }
                }
                min = c;
                proof {
                    lemma_info_le_total(src@[c as int], src@[c as int]);
                }
            } else {
                proof {
                    lemma_info_le_total(src@[c as int], src@[min as int]);
                }
            }
            c += 1;
        }
        let ghost pre = src@;
        let ghost pre_out = out@;
        let picked = src.remove(min);
        out.push(picked);
        proof {
            broadcast use vstd::seq_lib::group_seq_properties;

            let f = |x: AudioDeviceInfo| info_model(x);
            assert(pre.map_values(f).to_multiset() =~= src@.map_values(f).to_multiset().insert(
                info_model(picked),
            )) by {
                assert(src@.map_values(f) =~= pre.map_values(f).remove(min as int));
                pre.map_values(f).to_multiset_ensures();
                assert(pre.map_values(f).remove(min as int).to_multiset() =~= pre.map_values(
                    f,
                ).to_multiset().remove(f(picked)));
                assert(pre.map_values(f).to_multiset().count(f(picked)) > 0) by {
                    assert(pre.map_values(f)[min as int] == f(picked));
                    assert(pre.map_values(f).contains(f(picked)));
                }
            }
            assert(out@ =~= pre_out.push(picked));
            assert(out@.map_values(f) =~= pre_out.map_values(f).push(f(picked)));
            pre_out.map_values(f).to_multiset_ensures();
            assert(out@.map_values(f).to_multiset() =~= pre_out.map_values(f).to_multiset().insert(
                f(picked),
            ));
            assert(out@.map_values(f).to_multiset().add(src@.map_values(f).to_multiset()) =~= orig.map_values(
                f,
            ).to_multiset());
            // every element still in src comes from pre, so it stays
            // above picked and above the earlier output entries
            assert forall|sj: int| 0 <= sj < src@.len() implies info_le(
                picked,
                #[trigger] src@[sj],
            ) && valid_volume(src@[sj].max_volume) by {
                if sj < min {
                    assert(src@[sj] == pre[sj]);
                } else {
                    assert(src@[sj] == pre[sj + 1]);
                }
            }
            assert forall|oi: int, sj: int|
                0 <= oi < out@.len() && 0 <= sj < src@.len() implies info_le(
                #[trigger] out@[oi],
                #[trigger] src@[sj],
            ) by {
                if oi == out@.len() - 1 {
                    assert(out@[oi] == picked);
                } else {
                    assert(out@[oi] == pre_out[oi]);
                }
            }
        }
    }
    proof {
        assert(out@.map_values(|x: AudioDeviceInfo| info_model(x)).to_multiset().add(
            Seq::<(Seq<char>, Seq<char>, u32)>::empty().to_multiset(),
        ) =~= out@.map_values(|x: AudioDeviceInfo| info_model(x)).to_multiset());
        assert(src@.map_values(|x: AudioDeviceInfo| info_model(x)) =~= Seq::<(
            Seq<char>,
            Seq<char>,
            u32,
        )>::empty());
    }
    out
}

} // verus!
