//! Run configuration: what a single fetch-then-aggregate run needs, and the
//! rule that derives the local cache file name from the object key.

use vstd::prelude::*;

verus! {

/// Byte value of `/`, the separator between segments of an object key.
pub const SLASH: u8 = 47;

/// Byte value of `.`.
pub const DOT: u8 = 46;

/// The fallback local file name, `temp.csv`, as a byte sequence.
pub open spec fn default_name() -> Seq<u8> {
    seq![116u8, 101u8, 109u8, 112u8, 46u8, 99u8, 115u8, 118u8]
}

/// The suffix of `s` after its last `/`; all of `s` when it has none.
pub open spec fn last_segment(s: Seq<u8>) -> Seq<u8>
    decreases s.len(),
{
    if s.len() == 0 {
        Seq::empty()
    } else if s.last() == SLASH {
        Seq::empty()
    } else {
        last_segment(s.drop_last()).push(s.last())
    }
}

/// The local cache file name chosen for an object key: the key's final path
/// segment, or `temp.csv` when the key has no usable final segment (the key
/// is empty, ends in `/`, or the segment is `.` or `..`).
pub open spec fn local_name(key: Seq<u8>) -> Seq<u8> {
    let seg = last_segment(key);
    if seg.len() == 0 || seg == seq![DOT] || seg == seq![DOT, DOT] {
        default_name()
    } else {
        seg
    }
}

/// The fallback file name, `temp.csv`, as a vector.
pub fn default_file_name() -> (r: Vec<u8>)
    ensures
        r@ == default_name(),
{
    let mut v: Vec<u8> = Vec::new();
    v.push(116);
    v.push(101);
    v.push(109);
    v.push(112);
    v.push(46);
    v.push(99);
    v.push(115);
    v.push(118);
    proof {
        assert(v@ =~= default_name());
    }
    v
}

/// Derives the local cache file name from the object key.
pub fn local_file_name(key: &Vec<u8>) -> (r: Vec<u8>)
    ensures
        r@ == local_name(key@),
{
    let mut start: usize = 0;
    let mut i: usize = 0;
    while i < key.len()
        invariant
            start <= i <= key.len(),
            last_segment(key@.take(i as int)) =~= key@.subrange(start as int, i as int),
        decreases key.len() - i,
    {
        proof {
            assert(key@.take(i as int + 1).drop_last() =~= key@.take(i as int));
        }
        if key[i] == SLASH {
            start = i + 1;
        }
        proof {
            assert(last_segment(key@.take(i as int + 1)) =~= key@.subrange(
                start as int,
                i as int + 1,
            ));
        }
        i = i + 1;
    }
    proof {
        assert(key@.take(key@.len() as int) =~= key@);
    }
    let mut seg: Vec<u8> = Vec::new();
    let mut j: usize = start;
    while j < key.len()
        invariant
            start <= j <= key.len(),
            seg@ =~= key@.subrange(start as int, j as int),
        decreases key.len() - j,
    {
        seg.push(key[j]);
        proof {
            assert(seg@ =~= key@.subrange(start as int, j as int + 1));
        }
        j = j + 1;
    }
    let use_default = seg.len() == 0 || (seg.len() == 1 && seg[0] == DOT) || (seg.len() == 2
        && seg[0] == DOT && seg[1] == DOT);
    if use_default {
        proof {
            if seg.len() == 1 && seg@[0] == DOT {
                assert(seg@ =~= seq![DOT]);
            }
            if seg.len() == 2 && seg@[0] == DOT && seg@[1] == DOT {
                assert(seg@ =~= seq![DOT, DOT]);
            }
        }
        default_file_name()
    } else {
        proof {
            assert(seg@ != seq![DOT]);
            assert(seg@ != seq![DOT, DOT]);
        }
        seg
    }
}

/// What one download needs: the bucket, the object key, and the local
/// destination path. Built once per run from configuration, then consumed by
/// the fetcher; never changed afterwards.
pub struct FetchRequest {
    pub bucket: Vec<u8>,
    pub object: Vec<u8>,
    pub destination: Vec<u8>,
}

impl FetchRequest {
    /// A request for `object` in `bucket`, destined for the local file whose
    /// name is derived from the object key.
    pub fn from_key(bucket: Vec<u8>, object: Vec<u8>) -> (r: FetchRequest)
        ensures
            r.bucket@ == bucket@,
            r.object@ == object@,
            r.destination@ == local_name(object@),
    {
        let destination = local_file_name(&object);
        FetchRequest { bucket, object, destination }
    }
}

} // verus!
