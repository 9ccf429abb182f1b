//! The binary reconstruction engine.
//!
//! A binary-carrying packet arrives with its buffers stripped out:
//! each one is replaced on the wire by a placeholder object
//! `{"_placeholder": true, "num": <index>}`. Once the transport has
//! delivered the buffers, the engine walks the payload tree, depth
//! bounded, and splices buffer `num` in place of each placeholder; all
//! other structure is kept exactly, in order.

use vstd::prelude::*;
use crate::error::SocketError;
use crate::json::Json;
use crate::json::JsonV;
use crate::json::Member;
use crate::json::views_of;
use crate::json::member_views;

verus! {

broadcast use vstd::std_specs::vec::group_vec_axioms, vstd::seq::group_seq_axioms;

/// The key that marks a placeholder object.
pub open spec fn placeholder_key() -> Seq<char> {
    seq!['_', 'p', 'l', 'a', 'c', 'e', 'h', 'o', 'l', 'd', 'e', 'r']
}

/// The key that carries a placeholder's buffer index.
pub open spec fn num_key() -> Seq<char> {
    seq!['n', 'u', 'm']
}

/// The models of a sequence of byte buffers.
pub open spec fn bytes_views(s: Seq<Vec<u8>>) -> Seq<Seq<u8>> {
    Seq::new(s.len(), |i: int| if 0 <= i < s.len() { s[i]@ } else { Seq::empty() })
}

/// The value behind the first member with the given key, from index
/// `i` on.
pub open spec fn lookup_from(ms: Seq<(Seq<char>, JsonV)>, key: Seq<char>, i: int) -> Option<JsonV>
    decreases ms.len() - i,
{
    if i < 0 || i >= ms.len() {
        None
    } else if ms[i].0 == key {
        Some(ms[i].1)
    } else {
        lookup_from(ms, key, i + 1)
    }
}

/// The buffer index an object stands for, if the object matches the
/// placeholder shape: `_placeholder` is boolean true and `num` is a
/// number.
pub open spec fn placeholder_index(ms: Seq<(Seq<char>, JsonV)>) -> Option<int> {
    if lookup_from(ms, placeholder_key(), 0) == Some(JsonV::Bool(true)) {
        match lookup_from(ms, num_key(), 0) {
            Some(JsonV::Num(n)) => Some(n),
            _ => None,
        }
    } else {
        None
    }
}

/// What reconstruction does to one value at the given depth: below
/// the depth bound it returns the value unchanged; a placeholder
/// object becomes the buffer it names, or the index error when no
/// buffer is behind the index; any other object or array is rebuilt
/// with each child reconstructed one level deeper; scalars stand.
pub open spec fn spec_reconstruct(j: JsonV, atts: Seq<Seq<u8>>, max_depth: int, depth: int) -> Result<
    JsonV,
    SocketError,
>
    decreases j, 0int, 0int,
{
    if depth >= max_depth {
        Ok(j)
    } else {
        match j {
            JsonV::Obj(ms) => match placeholder_index(ms) {
                Some(n) => if 0 <= n < atts.len() {
                    Ok(JsonV::Bin(atts[n]))
                } else {
                    Err(SocketError::AttachmentIndexOutOfRange)
                },
                None => match spec_reconstruct_membs(ms, atts, max_depth, depth, 0) {
                    Ok(ms2) => Ok(JsonV::Obj(ms2)),
                    Err(e) => Err(e),
                },
            },
            JsonV::Arr(vs) => match spec_reconstruct_elems(vs, atts, max_depth, depth, 0) {
                Ok(vs2) => Ok(JsonV::Arr(vs2)),
                Err(e) => Err(e),
            },
            _ => Ok(j),
        }
    }
}

/// Reconstruction of an array's elements from index `i` on, each one
/// level deeper; the first failing element decides.
pub open spec fn spec_reconstruct_elems(
    vs: Seq<JsonV>,
    atts: Seq<Seq<u8>>,
    max_depth: int,
    depth: int,
    i: int,
) -> Result<Seq<JsonV>, SocketError>
    decreases vs, 1int, vs.len() - i,
{
    if i < 0 || i >= vs.len() {
        Ok(Seq::empty())
    } else {
        match spec_reconstruct(vs[i], atts, max_depth, depth + 1) {
            Err(e) => Err(e),
            Ok(v2) => match spec_reconstruct_elems(vs, atts, max_depth, depth, i + 1) {
                Err(e) => Err(e),
                Ok(rest) => Ok(seq![v2] + rest),
            },
        }
    }
}

/// Reconstruction of an object's member values from index `i` on, each
/// one level deeper; keys and their order are kept.
pub open spec fn spec_reconstruct_membs(
    ms: Seq<(Seq<char>, JsonV)>,
    atts: Seq<Seq<u8>>,
    max_depth: int,
    depth: int,
    i: int,
) -> Result<Seq<(Seq<char>, JsonV)>, SocketError>
    decreases ms, 1int, ms.len() - i,
{
    if i < 0 || i >= ms.len() {
        Ok(Seq::empty())
    } else {
        match spec_reconstruct(ms[i].1, atts, max_depth, depth + 1) {
            Err(e) => Err(e),
            Ok(v2) => match spec_reconstruct_membs(ms, atts, max_depth, depth, i + 1) {
                Err(e) => Err(e),
                Ok(rest) => Ok(seq![(ms[i].0, v2)] + rest),
            },
        }
    }
}

/// The placeholder object that stands for buffer `n` on the wire.
pub open spec fn placeholder_of(n: int) -> JsonV {
    JsonV::Obj(seq![(placeholder_key(), JsonV::Bool(true)), (num_key(), JsonV::Num(n))])
}

/// What deconstruction — the encode-side mirror of reconstruction —
/// does to one value: each binary node becomes the placeholder of the
/// next free buffer index, its bytes joining the out-of-band buffer
/// sequence in walk order; all other structure is kept exactly.
/// More buffers than an attachment count can declare is a failure.
pub open spec fn spec_deconstruct(j: JsonV, base: int) -> Result<(JsonV, Seq<Seq<u8>>), SocketError>
    decreases j, 0int, 0int,
{
    match j {
        JsonV::Bin(b) => if base > 0xffff_ffff {
            Err(SocketError::InvalidAttachmentCount)
        } else {
            Ok((placeholder_of(base), seq![b]))
        },
        JsonV::Arr(vs) => match spec_deconstruct_elems(vs, base, 0) {
            Ok((vs2, bufs)) => Ok((JsonV::Arr(vs2), bufs)),
            Err(e) => Err(e),
        },
        JsonV::Obj(ms) => match spec_deconstruct_membs(ms, base, 0) {
            Ok((ms2, bufs)) => Ok((JsonV::Obj(ms2), bufs)),
            Err(e) => Err(e),
        },
        _ => Ok((j, Seq::empty())),
    }
}

/// Deconstruction of an array's elements from index `i` on, buffer
/// indexes running left to right.
pub open spec fn spec_deconstruct_elems(vs: Seq<JsonV>, base: int, i: int) -> Result<
    (Seq<JsonV>, Seq<Seq<u8>>),
    SocketError,
>
    decreases vs, 1int, vs.len() - i,
{
    if i < 0 || i >= vs.len() {
        Ok((Seq::empty(), Seq::empty()))
    } else {
        match spec_deconstruct(vs[i], base) {
            Err(e) => Err(e),
            Ok((v2, hb)) => if base + hb.len() > 0x1_0000_0000 {
                Err(SocketError::InvalidAttachmentCount)
            } else {
                match spec_deconstruct_elems(vs, base + hb.len(), i + 1) {
                    Err(e) => Err(e),
                    Ok((rest, tb)) => Ok((seq![v2] + rest, hb + tb)),
                }
            },
        }
    }
}

/// Deconstruction of an object's member values from index `i` on,
/// keys and their order kept.
pub open spec fn spec_deconstruct_membs(ms: Seq<(Seq<char>, JsonV)>, base: int, i: int) -> Result<
    (Seq<(Seq<char>, JsonV)>, Seq<Seq<u8>>),
    SocketError,
>
    decreases ms, 1int, ms.len() - i,
{
    if i < 0 || i >= ms.len() {
        Ok((Seq::empty(), Seq::empty()))
    } else {
        match spec_deconstruct(ms[i].1, base) {
            Err(e) => Err(e),
            Ok((v2, hb)) => if base + hb.len() > 0x1_0000_0000 {
                Err(SocketError::InvalidAttachmentCount)
            } else {
                match spec_deconstruct_membs(ms, base + hb.len(), i + 1) {
                    Err(e) => Err(e),
                    Ok((rest, tb)) => Ok((seq![(ms[i].0, v2)] + rest, hb + tb)),
                }
            },
        }
    }
}

/// Whether the reconstruction walk, descending as §4.2 does (never
/// into a matched placeholder, never past the depth bound), meets a
/// placeholder whose index names no supplied buffer.
pub open spec fn meets_bad_placeholder(j: JsonV, atts: Seq<Seq<u8>>, max_depth: int, depth: int) -> bool
    decreases j, 0int, 0int,
{
    depth < max_depth && match j {
        JsonV::Obj(ms) => match placeholder_index(ms) {
            Some(n) => !(0 <= n < atts.len()),
            None => meets_bad_membs(ms, atts, max_depth, depth, 0),
        },
        JsonV::Arr(vs) => meets_bad_elems(vs, atts, max_depth, depth, 0),
        _ => false,
    }
}

/// Whether some element from index `i` on meets a bad placeholder.
pub open spec fn meets_bad_elems(
    vs: Seq<JsonV>,
    atts: Seq<Seq<u8>>,
    max_depth: int,
    depth: int,
    i: int,
) -> bool
    decreases vs, 1int, vs.len() - i,
{
    0 <= i < vs.len() && (meets_bad_placeholder(vs[i], atts, max_depth, depth + 1)
        || meets_bad_elems(vs, atts, max_depth, depth, i + 1))
}

/// Whether some member value from index `i` on meets a bad
/// placeholder.
pub open spec fn meets_bad_membs(
    ms: Seq<(Seq<char>, JsonV)>,
    atts: Seq<Seq<u8>>,
    max_depth: int,
    depth: int,
    i: int,
) -> bool
    decreases ms, 1int, ms.len() - i,
{
    0 <= i < ms.len() && (meets_bad_placeholder(ms[i].1, atts, max_depth, depth + 1)
        || meets_bad_membs(ms, atts, max_depth, depth, i + 1))
}

/// The only failure reconstruction knows is the attachment-index
/// error.
pub proof fn lemma_reconstruct_err_kind(j: JsonV, atts: Seq<Seq<u8>>, max_depth: int, depth: int)
    ensures
        spec_reconstruct(j, atts, max_depth, depth) matches Err(e) ==> e
            == SocketError::AttachmentIndexOutOfRange,
    decreases j, 0int, 0int,
{
    if depth < max_depth {
        match j {
            JsonV::Obj(ms) => {
                lemma_reconstruct_err_kind_membs(ms, atts, max_depth, depth, 0);
            },
            JsonV::Arr(vs) => {
                lemma_reconstruct_err_kind_elems(vs, atts, max_depth, depth, 0);
            },
            _ => {},
        }
    }
}

proof fn lemma_reconstruct_err_kind_elems(
    vs: Seq<JsonV>,
    atts: Seq<Seq<u8>>,
    max_depth: int,
    depth: int,
    i: int,
)
    ensures
        spec_reconstruct_elems(vs, atts, max_depth, depth, i) matches Err(e) ==> e
            == SocketError::AttachmentIndexOutOfRange,
    decreases vs, 1int, vs.len() - i,
{
    if 0 <= i < vs.len() {
        lemma_reconstruct_err_kind(vs[i], atts, max_depth, depth + 1);
        lemma_reconstruct_err_kind_elems(vs, atts, max_depth, depth, i + 1);
    }
}

proof fn lemma_reconstruct_err_kind_membs(
    ms: Seq<(Seq<char>, JsonV)>,
    atts: Seq<Seq<u8>>,
    max_depth: int,
    depth: int,
    i: int,
)
    ensures
        spec_reconstruct_membs(ms, atts, max_depth, depth, i) matches Err(e) ==> e
            == SocketError::AttachmentIndexOutOfRange,
    decreases ms, 1int, ms.len() - i,
{
    if 0 <= i < ms.len() {
        lemma_reconstruct_err_kind(ms[i].1, atts, max_depth, depth + 1);
        lemma_reconstruct_err_kind_membs(ms, atts, max_depth, depth, i + 1);
    }
}

/// Law: wherever the walk meets, within the depth bound, a
/// placeholder whose index names no supplied buffer, reconstruction
/// fails with the attachment-index error — the one that tells a codec
/// desynchronization from a wire-grammar fault.
pub proof fn lemma_bad_placeholder_fails(j: JsonV, atts: Seq<Seq<u8>>, max_depth: int, depth: int)
    requires
        meets_bad_placeholder(j, atts, max_depth, depth),
    ensures
        spec_reconstruct(j, atts, max_depth, depth) == Err::<JsonV, SocketError>(
            SocketError::AttachmentIndexOutOfRange,
        ),
    decreases j, 0int, 0int,
{
    match j {
        JsonV::Obj(ms) => {
            if placeholder_index(ms) is None {
                lemma_bad_placeholder_fails_membs(ms, atts, max_depth, depth, 0);
            }
        },
        JsonV::Arr(vs) => {
            lemma_bad_placeholder_fails_elems(vs, atts, max_depth, depth, 0);
        },
        _ => {},
    }
}

proof fn lemma_bad_placeholder_fails_elems(
    vs: Seq<JsonV>,
    atts: Seq<Seq<u8>>,
    max_depth: int,
    depth: int,
    i: int,
)
    requires
        meets_bad_elems(vs, atts, max_depth, depth, i),
    ensures
        spec_reconstruct_elems(vs, atts, max_depth, depth, i) == Err::<Seq<JsonV>, SocketError>(
            SocketError::AttachmentIndexOutOfRange,
        ),
    decreases vs, 1int, vs.len() - i,
{
    if meets_bad_placeholder(vs[i], atts, max_depth, depth + 1) {
        lemma_bad_placeholder_fails(vs[i], atts, max_depth, depth + 1);
    } else {
        lemma_reconstruct_err_kind(vs[i], atts, max_depth, depth + 1);
        lemma_bad_placeholder_fails_elems(vs, atts, max_depth, depth, i + 1);
    }
}

proof fn lemma_bad_placeholder_fails_membs(
    ms: Seq<(Seq<char>, JsonV)>,
    atts: Seq<Seq<u8>>,
    max_depth: int,
    depth: int,
    i: int,
)
    requires
        meets_bad_membs(ms, atts, max_depth, depth, i),
    ensures
        spec_reconstruct_membs(ms, atts, max_depth, depth, i) == Err::<
            Seq<(Seq<char>, JsonV)>,
            SocketError,
        >(SocketError::AttachmentIndexOutOfRange),
    decreases ms, 1int, ms.len() - i,
{
    if meets_bad_placeholder(ms[i].1, atts, max_depth, depth + 1) {
        lemma_bad_placeholder_fails(ms[i].1, atts, max_depth, depth + 1);
    } else {
        lemma_reconstruct_err_kind(ms[i].1, atts, max_depth, depth + 1);
        lemma_bad_placeholder_fails_membs(ms, atts, max_depth, depth, i + 1);
    }
}

/// Whether every placeholder object the walk could meet lies at or
/// past the depth bound.
pub open spec fn placeholders_beyond(j: JsonV, max_depth: int, depth: int) -> bool
    decreases j, 0int, 0int,
{
    depth >= max_depth || match j {
        JsonV::Obj(ms) => placeholder_index(ms) is None && placeholders_beyond_membs(
            ms,
            max_depth,
            depth,
            0,
        ),
        JsonV::Arr(vs) => placeholders_beyond_elems(vs, max_depth, depth, 0),
        _ => true,
    }
}

/// Whether the elements from index `i` on hold their placeholders
/// beyond the bound.
pub open spec fn placeholders_beyond_elems(vs: Seq<JsonV>, max_depth: int, depth: int, i: int) -> bool
    decreases vs, 1int, vs.len() - i,
{
    !(0 <= i < vs.len()) || (placeholders_beyond(vs[i], max_depth, depth + 1)
        && placeholders_beyond_elems(vs, max_depth, depth, i + 1))
}

/// Whether the member values from index `i` on hold their
/// placeholders beyond the bound.
pub open spec fn placeholders_beyond_membs(
    ms: Seq<(Seq<char>, JsonV)>,
    max_depth: int,
    depth: int,
    i: int,
) -> bool
    decreases ms, 1int, ms.len() - i,
{
    !(0 <= i < ms.len()) || (placeholders_beyond(ms[i].1, max_depth, depth + 1)
        && placeholders_beyond_membs(ms, max_depth, depth, i + 1))
}

/// Law: when every placeholder lies at or past the depth bound,
/// reconstruction succeeds and leaves the whole value exactly as it
/// stands — the bound truncates silently, it never fails.
pub proof fn lemma_deep_placeholders_kept(j: JsonV, atts: Seq<Seq<u8>>, max_depth: int, depth: int)
    requires
        placeholders_beyond(j, max_depth, depth),
    ensures
        spec_reconstruct(j, atts, max_depth, depth) == Ok::<JsonV, SocketError>(j),
    decreases j, 0int, 0int,
{
    if depth < max_depth {
        match j {
            JsonV::Obj(ms) => {
                lemma_deep_placeholders_kept_membs(ms, atts, max_depth, depth, 0);
                assert(ms.subrange(0, ms.len() as int) =~= ms);
            },
            JsonV::Arr(vs) => {
                lemma_deep_placeholders_kept_elems(vs, atts, max_depth, depth, 0);
                assert(vs.subrange(0, vs.len() as int) =~= vs);
            },
            _ => {},
        }
    }
}

proof fn lemma_deep_placeholders_kept_elems(
    vs: Seq<JsonV>,
    atts: Seq<Seq<u8>>,
    max_depth: int,
    depth: int,
    i: int,
)
    requires
        0 <= i <= vs.len(),
        placeholders_beyond_elems(vs, max_depth, depth, i),
    ensures
        spec_reconstruct_elems(vs, atts, max_depth, depth, i) == Ok::<Seq<JsonV>, SocketError>(
            vs.subrange(i, vs.len() as int),
        ),
    decreases vs, 1int, vs.len() - i,
{
    if i == vs.len() {
        assert(vs.subrange(i, vs.len() as int) =~= Seq::<JsonV>::empty());
    } else {
        lemma_deep_placeholders_kept(vs[i], atts, max_depth, depth + 1);
        lemma_deep_placeholders_kept_elems(vs, atts, max_depth, depth, i + 1);
        assert(seq![vs[i]] + vs.subrange(i + 1, vs.len() as int) =~= vs.subrange(
            i,
            vs.len() as int,
        ));
    }
}

proof fn lemma_deep_placeholders_kept_membs(
    ms: Seq<(Seq<char>, JsonV)>,
    atts: Seq<Seq<u8>>,
    max_depth: int,
    depth: int,
    i: int,
)
    requires
        0 <= i <= ms.len(),
        placeholders_beyond_membs(ms, max_depth, depth, i),
    ensures
        spec_reconstruct_membs(ms, atts, max_depth, depth, i) == Ok::<
            Seq<(Seq<char>, JsonV)>,
            SocketError,
        >(ms.subrange(i, ms.len() as int)),
    decreases ms, 1int, ms.len() - i,
{
    if i == ms.len() {
        assert(ms.subrange(i, ms.len() as int) =~= Seq::<(Seq<char>, JsonV)>::empty());
    } else {
        lemma_deep_placeholders_kept(ms[i].1, atts, max_depth, depth + 1);
        lemma_deep_placeholders_kept_membs(ms, atts, max_depth, depth, i + 1);
        assert(seq![(ms[i].0, ms[i].1)] + ms.subrange(i + 1, ms.len() as int) =~= ms.subrange(
            i,
            ms.len() as int,
        ));
    }
}

/// Law: at or past the depth bound, reconstruction leaves a value
/// exactly as it stands — placeholders beyond the bound stay
/// unreplaced — and still succeeds.
pub proof fn lemma_depth_bound(j: JsonV, atts: Seq<Seq<u8>>, max_depth: int, depth: int)
    requires
        depth >= max_depth,
    ensures
        spec_reconstruct(j, atts, max_depth, depth) == Ok::<JsonV, SocketError>(j),
{
}

/// Law: a placeholder whose index names no supplied buffer fails with
/// the attachment-index error, the one that tells a codec
/// desynchronization from a wire fault.
pub proof fn lemma_attachment_out_of_range(
    ms: Seq<(Seq<char>, JsonV)>,
    atts: Seq<Seq<u8>>,
    max_depth: int,
    depth: int,
)
    requires
        depth < max_depth,
        placeholder_index(ms) matches Some(n) && !(0 <= n < atts.len()),
    ensures
        spec_reconstruct(JsonV::Obj(ms), atts, max_depth, depth) == Err::<JsonV, SocketError>(
            SocketError::AttachmentIndexOutOfRange,
        ),
{
}

/// The value behind the first member with the given key, from index
/// `i` on.
fn lookup_member<'a>(v: &'a Vec<Member>, i: usize, key: &String) -> (r: Option<&'a Json>)
    requires
        i <= v@.len(),
    ensures
        match r {
            Some(j) => lookup_from(member_views(v@), key@, i as int) == Some(j@),
            None => lookup_from(member_views(v@), key@, i as int) is None,
        },
    decreases v@.len() - i,
{
    if i >= v.len() {
        None
    } else if v[i].key == *key {
        Some(&v[i].value)
    } else {
        lookup_member(v, i + 1, key)
    }
}

/// Rebuilds one value with every placeholder within the depth bound
/// replaced by the buffer it names.
fn rec_json(j: &Json, atts: &Vec<Vec<u8>>, max_depth: u32, depth: u32) -> (r: Result<
    Json,
    SocketError,
>)
    ensures
        match r {
            Ok(out) => spec_reconstruct(j@, bytes_views(atts@), max_depth as int, depth as int)
                == Ok::<JsonV, SocketError>(out@),
            Err(e) => spec_reconstruct(j@, bytes_views(atts@), max_depth as int, depth as int)
                == Err::<JsonV, SocketError>(e),
        },
    decreases *j, 0int, 0int,
{
    if depth >= max_depth {
        return Ok(j.clone());
    }
    match j {
        Json::Obj(v) => {
            proof {
                reveal_strlit("_placeholder");
                reveal_strlit("num");
            }
            let ph_key = "_placeholder".to_owned();
            let n_key = "num".to_owned();
            proof {
                assert(ph_key@ =~= placeholder_key());
                assert(n_key@ =~= num_key());
            }
            let mut is_ph = false;
            match lookup_member(v, 0, &ph_key) {
                Some(Json::Bool(b)) => {
                    if *b {
                        is_ph = true;
                    }
                },
                _ => {},
            }
            if is_ph {
                match lookup_member(v, 0, &n_key) {
                    Some(Json::Num(num)) => {
                        let n = *num;
                        if n >= 0 && (n as u64) < (atts.len() as u64) {
                            let bytes = atts[n as usize].clone();
                            proof {
                                assert(bytes@ =~= bytes_views(atts@)[n as int]);
                            }
                            return Ok(Json::Bin(bytes));
                        } else {
                            return Err(SocketError::AttachmentIndexOutOfRange);
                        }
                    },
                    _ => {},
                }
            }
            proof {
                assert(decreases_to!(*j => j->Obj_0));
            }
            match rec_membs(v, atts, max_depth, depth, 0) {
                Err(e) => Err(e),
                Ok(out) => Ok(Json::Obj(out)),
            }
        },
        Json::Arr(v) => {
            proof {
                assert(decreases_to!(*j => j->Arr_0));
            }
            match rec_elems(v, atts, max_depth, depth, 0) {
                Err(e) => Err(e),
                Ok(out) => Ok(Json::Arr(out)),
            }
        },
        _ => Ok(j.clone()),
    }
}

/// Rebuilds an array's elements from index `i` on.
fn rec_elems(v: &Vec<Json>, atts: &Vec<Vec<u8>>, max_depth: u32, depth: u32, i: usize) -> (r:
    Result<Vec<Json>, SocketError>)
    requires
        depth < max_depth,
    ensures
        match r {
            Ok(out) => spec_reconstruct_elems(
                views_of(v@),
                bytes_views(atts@),
                max_depth as int,
                depth as int,
                i as int,
            ) == Ok::<Seq<JsonV>, SocketError>(views_of(out@)),
            Err(e) => spec_reconstruct_elems(
                views_of(v@),
                bytes_views(atts@),
                max_depth as int,
                depth as int,
                i as int,
            ) == Err::<Seq<JsonV>, SocketError>(e),
        },
    decreases v@, 1int, v@.len() - i,
{
    if i >= v.len() {
        let out: Vec<Json> = Vec::new();
        proof {
            assert(views_of(out@) =~= Seq::<JsonV>::empty());
        }
        return Ok(out);
    }
    proof {
        assert(decreases_to!(v@ => v@[i as int]));
    }
    match rec_json(&v[i], atts, max_depth, depth + 1) {
        Err(e) => Err(e),
        Ok(v2) => {
            match rec_elems(v, atts, max_depth, depth, i + 1) {
                Err(e) => Err(e),
                Ok(mut out) => {
                    let ghost tailv = out@;
                    let ghost vv = v2@;
                    out.insert(0, v2);
                    proof {
                        assert(views_of(out@) =~= seq![vv] + views_of(tailv));
                    }
                    Ok(out)
                },
            }
        },
    }
}

/// Rebuilds an object's members from index `i` on, keys kept in
/// place.
fn rec_membs(v: &Vec<Member>, atts: &Vec<Vec<u8>>, max_depth: u32, depth: u32, i: usize) -> (r:
    Result<Vec<Member>, SocketError>)
    requires
        depth < max_depth,
    ensures
        match r {
            Ok(out) => spec_reconstruct_membs(
                member_views(v@),
                bytes_views(atts@),
                max_depth as int,
                depth as int,
                i as int,
            ) == Ok::<Seq<(Seq<char>, JsonV)>, SocketError>(member_views(out@)),
            Err(e) => spec_reconstruct_membs(
                member_views(v@),
                bytes_views(atts@),
                max_depth as int,
                depth as int,
                i as int,
            ) == Err::<Seq<(Seq<char>, JsonV)>, SocketError>(e),
        },
    decreases v@, 1int, v@.len() - i,
{
    if i >= v.len() {
        let out: Vec<Member> = Vec::new();
        proof {
            assert(member_views(out@) =~= Seq::<(Seq<char>, JsonV)>::empty());
        }
        return Ok(out);
    }
    proof {
        assert(decreases_to!(v@ => v@[i as int]));
        assert(decreases_to!(v@[i as int] => v@[i as int].value));
    }
    match rec_json(&v[i].value, atts, max_depth, depth + 1) {
        Err(e) => Err(e),
        Ok(v2) => {
            match rec_membs(v, atts, max_depth, depth, i + 1) {
                Err(e) => Err(e),
                Ok(mut out) => {
                    let ghost tailv = out@;
                    let ghost kv = v@[i as int].key@;
                    let ghost vv = v2@;
                    out.insert(0, Member { key: v[i].key.clone(), value: v2 });
                    proof {
                        assert(member_views(out@) =~= seq![(kv, vv)] + member_views(tailv));
                    }
                    Ok(out)
                },
            }
        },
    }
}

/// Rebuilds one value with every binary node stripped to a
/// placeholder, collecting the buffers in walk order.
fn dec_json(j: &Json, base: u64) -> (r: Result<(Json, Vec<Vec<u8>>), SocketError>)
    requires
        base <= 0x1_0000_0000,
    ensures
        match r {
            Ok(p) => spec_deconstruct(j@, base as int) == Ok::<
                (JsonV, Seq<Seq<u8>>),
                SocketError,
            >((p.0@, bytes_views(p.1@))),
            Err(e) => spec_deconstruct(j@, base as int) == Err::<
                (JsonV, Seq<Seq<u8>>),
                SocketError,
            >(e),
        },
    decreases *j, 0int, 0int,
{
    match j {
        Json::Bin(b) => {
            if base > 0xffff_ffff {
                return Err(SocketError::InvalidAttachmentCount);
            }
            proof {
                reveal_strlit("_placeholder");
                reveal_strlit("num");
            }
            let k1 = "_placeholder".to_owned();
            let k2 = "num".to_owned();
            proof {
                assert(k1@ =~= placeholder_key());
                assert(k2@ =~= num_key());
            }
            let mut members: Vec<Member> = Vec::new();
            members.push(Member { key: k1, value: Json::Bool(true) });
            members.push(Member { key: k2, value: Json::Num(base as i64) });
            let ph = Json::Obj(members);
            let mut bufs: Vec<Vec<u8>> = Vec::new();
            bufs.push(b.clone());
            proof {
                let ms = member_views(members@);
                assert(ms.len() == 2);
                assert(ms[0].0 == placeholder_key());
                assert(ms[0].1 == JsonV::Bool(true));
                assert(ms[1].0 == num_key());
                assert(ms[1].1 == JsonV::Num(base as int));
                assert(ms =~= placeholder_of(base as int)->Obj_0);
                assert(bytes_views(bufs@) =~= seq![b@]);
            }
            Ok((ph, bufs))
        },
        Json::Arr(v) => {
            proof {
                assert(decreases_to!(*j => j->Arr_0));
            }
            match dec_elems(v, base, 0) {
                Err(e) => Err(e),
                Ok((out, bufs)) => Ok((Json::Arr(out), bufs)),
            }
        },
        Json::Obj(v) => {
            proof {
                assert(decreases_to!(*j => j->Obj_0));
            }
            match dec_membs(v, base, 0) {
                Err(e) => Err(e),
                Ok((out, bufs)) => Ok((Json::Obj(out), bufs)),
            }
        },
        _ => {
            let bufs: Vec<Vec<u8>> = Vec::new();
            proof {
                assert(bytes_views(bufs@) =~= Seq::<Seq<u8>>::empty());
            }
            Ok((j.clone(), bufs))
        },
    }
}

/// Strips an array's elements from index `i` on.
fn dec_elems(v: &Vec<Json>, base: u64, i: usize) -> (r: Result<
    (Vec<Json>, Vec<Vec<u8>>),
    SocketError,
>)
    requires
        base <= 0x1_0000_0000,
    ensures
        match r {
            Ok(p) => spec_deconstruct_elems(views_of(v@), base as int, i as int) == Ok::<
                (Seq<JsonV>, Seq<Seq<u8>>),
                SocketError,
            >((views_of(p.0@), bytes_views(p.1@))),
            Err(e) => spec_deconstruct_elems(views_of(v@), base as int, i as int) == Err::<
                (Seq<JsonV>, Seq<Seq<u8>>),
                SocketError,
            >(e),
        },
    decreases v@, 1int, v@.len() - i,
{
    if i >= v.len() {
        let out: Vec<Json> = Vec::new();
        let bufs: Vec<Vec<u8>> = Vec::new();
        proof {
            assert(views_of(out@) =~= Seq::<JsonV>::empty());
            assert(bytes_views(bufs@) =~= Seq::<Seq<u8>>::empty());
        }
        return Ok((out, bufs));
    }
    proof {
        assert(decreases_to!(v@ => v@[i as int]));
    }
    match dec_json(&v[i], base) {
        Err(e) => Err(e),
        Ok((h, mut hb)) => {
            if (hb.len() as u64) > 0x1_0000_0000u64 - base {
                return Err(SocketError::InvalidAttachmentCount);
            }
            let nb = base + (hb.len() as u64);
            match dec_elems(v, nb, i + 1) {
                Err(e) => Err(e),
                Ok((mut out, mut tb)) => {
                    let ghost tailv = out@;
                    let ghost hv = h@;
                    let ghost hbv = hb@;
                    let ghost tbv = tb@;
                    out.insert(0, h);
                    hb.append(&mut tb);
                    proof {
                        assert(views_of(out@) =~= seq![hv] + views_of(tailv));
                        assert(bytes_views(hb@) =~= bytes_views(hbv) + bytes_views(tbv));
                    }
                    Ok((out, hb))
                },
            }
        },
    }
}

/// Strips an object's member values from index `i` on, keys kept.
fn dec_membs(v: &Vec<Member>, base: u64, i: usize) -> (r: Result<
    (Vec<Member>, Vec<Vec<u8>>),
    SocketError,
>)
    requires
        base <= 0x1_0000_0000,
    ensures
        match r {
            Ok(p) => spec_deconstruct_membs(member_views(v@), base as int, i as int) == Ok::<
                (Seq<(Seq<char>, JsonV)>, Seq<Seq<u8>>),
                SocketError,
            >((member_views(p.0@), bytes_views(p.1@))),
            Err(e) => spec_deconstruct_membs(member_views(v@), base as int, i as int) == Err::<
                (Seq<(Seq<char>, JsonV)>, Seq<Seq<u8>>),
                SocketError,
            >(e),
        },
    decreases v@, 1int, v@.len() - i,
{
    if i >= v.len() {
        let out: Vec<Member> = Vec::new();
        let bufs: Vec<Vec<u8>> = Vec::new();
        proof {
            assert(member_views(out@) =~= Seq::<(Seq<char>, JsonV)>::empty());
            assert(bytes_views(bufs@) =~= Seq::<Seq<u8>>::empty());
        }
        return Ok((out, bufs));
    }
    proof {
        assert(decreases_to!(v@ => v@[i as int]));
        assert(decreases_to!(v@[i as int] => v@[i as int].value));
    }
    match dec_json(&v[i].value, base) {
        Err(e) => Err(e),
        Ok((h, mut hb)) => {
            if (hb.len() as u64) > 0x1_0000_0000u64 - base {
                return Err(SocketError::InvalidAttachmentCount);
            }
            let nb = base + (hb.len() as u64);
            match dec_membs(v, nb, i + 1) {
                Err(e) => Err(e),
                Ok((mut out, mut tb)) => {
                    let ghost tailv = out@;
                    let ghost kv = v@[i as int].key@;
                    let ghost hv = h@;
                    let ghost hbv = hb@;
                    let ghost tbv = tb@;
                    out.insert(0, Member { key: v[i].key.clone(), value: h });
                    hb.append(&mut tb);
                    proof {
                        assert(member_views(out@) =~= seq![(kv, hv)] + member_views(tailv));
                        assert(bytes_views(hb@) =~= bytes_views(hbv) + bytes_views(tbv));
                    }
                    Ok((out, hb))
                },
            }
        },
    }
}

/// Replaces, in place, every binary node by a placeholder and hands
/// back the stripped buffers, indexed in walk order: the encode-side
/// mirror of reconstruction. On failure the value is left as it was.
pub fn deconstruct(body: &mut Json) -> (r: Result<Vec<Vec<u8>>, SocketError>)
    ensures
        match r {
            Ok(bufs) => spec_deconstruct(old(body)@, 0) == Ok::<
                (JsonV, Seq<Seq<u8>>),
                SocketError,
            >((final(body)@, bytes_views(bufs@))),
            Err(e) => spec_deconstruct(old(body)@, 0) == Err::<
                (JsonV, Seq<Seq<u8>>),
                SocketError,
            >(e) && final(body)@ == old(body)@,
        },
{
    match dec_json(body, 0) {
        Ok((nj, bufs)) => {
            *body = nj;
            Ok(bufs)
        },
        Err(e) => Err(e),
    }
}

/// Replaces, in place, every placeholder within the depth bound by the
/// buffer it names. On failure the value is left as it was.
pub fn reconstruct(body: &mut Json, attachments: &Vec<Vec<u8>>, max_depth: u32) -> (r: Result<
    (),
    SocketError,
>)
    ensures
        match r {
            Ok(_) => spec_reconstruct(old(body)@, bytes_views(attachments@), max_depth as int, 0)
                == Ok::<JsonV, SocketError>(final(body)@),
            Err(e) => spec_reconstruct(old(body)@, bytes_views(attachments@), max_depth as int, 0)
                == Err::<JsonV, SocketError>(e) && final(body)@ == old(body)@,
        },
{
    match rec_json(body, attachments, max_depth, 0) {
        Ok(nj) => {
            *body = nj;
            Ok(())
        },
        Err(e) => Err(e),
    }
}

} // verus!
