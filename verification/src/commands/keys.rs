//! `KEYS`: a snapshot of every stored key as an array of bulk strings, in
//! storage order. No lazy filtering: keys past their expiry but not yet
//! swept still appear — deliberate best-effort semantics.

use vstd::prelude::*;
use crate::db::storage::{Store, key_seq, clone_bytes};
use crate::db::value::EntryView;
use crate::protocol::resp::encoder::{RespValue, RespData, rv_view, rv_list_view};
use crate::protocol::resp::laws::bulk_items;
use crate::text::lemma_deep_view_bytes;

verus! {

/// What `KEYS` replies; the store is untouched.
pub open spec fn spec_keys(args: Seq<Seq<u8>>, m: Seq<(Seq<u8>, EntryView)>) -> (
    RespData,
    Seq<(Seq<u8>, EntryView)>,
) {
    (RespData::Array(bulk_items(key_seq(m))), m)
}

/// `KEYS`.
#[verifier::loop_isolation(false)]
pub fn execute(parts: &Vec<Vec<u8>>, db: &Store) -> (r: RespValue)
    ensures
        (rv_view(r), db.model()) == spec_keys(parts.deep_view(), db.model()),
{
    let ks = db.keys();
    proof {
        lemma_deep_view_bytes(ks);
    }
    let ghost target = bulk_items(key_seq(db.model()));
    let mut items: Vec<RespValue> = Vec::new();
    let mut i: usize = 0;
    proof {
        assert(rv_list_view(items@) =~= target.subrange(0, 0));
    }
    while i < ks.len()
        invariant
            i <= ks@.len(),
            ks@.len() == target.len(),
            rv_list_view(items@) == target.subrange(0, i as int),
        decreases ks@.len() - i,
    {
        let k = clone_bytes(&ks[i]);
        let ghost kv = k@;
        let item = RespValue::Bulk(Some(k));
        let ghost pre = items@;
        items.push(item);
        proof {
            assert(items@.drop_last() =~= pre);
            assert(rv_list_view(items@) == rv_list_view(pre).push(rv_view(items@.last())));
            assert(rv_view(items@.last()) == RespData::Bulk(Some(kv)));
            assert(kv == ks.deep_view()[i as int]);
            assert(target[i as int] == RespData::Bulk(Some(key_seq(db.model())[i as int])));
            assert(rv_list_view(items@) =~= target.subrange(0, i + 1 as int));
        }
        i = i + 1;
    }
    proof {
        assert(target.subrange(0, target.len() as int) =~= target);
    }
    RespValue::Array(items)
}

} // verus!
