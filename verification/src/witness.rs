use vstd::prelude::*;
use crate::process::{bytes_eq, clone_bytes};

verus! {

/// A witness identifier together with the network address stored for it.
pub struct AddressRecord {
    pub witness_id: Vec<u8>,
    pub address: Vec<u8>,
}

/// The registry mapping witness identifiers to network addresses: the same
/// local-store shape as the event log store, but values are plain address
/// records with no chain validation, and a write simply replaces the
/// previous record.
pub struct WitnessRegistry {
    pub records: Vec<AddressRecord>,
}

/// No two records hold the same witness identifier.
pub open spec fn unique_witness_ids(s: Seq<AddressRecord>) -> bool {
    forall|i: int, j: int|
        0 <= i < j < s.len() ==> (#[trigger] s[i]).witness_id@ != (#[trigger] s[j]).witness_id@
}

/// The record stored under a witness identifier, if any.
pub open spec fn spec_record_at(s: Seq<AddressRecord>, id: Seq<u8>) -> Option<AddressRecord> {
    if exists|k: int| 0 <= k < s.len() && (#[trigger] s[k]).witness_id@ == id {
        Option::Some(s[choose|k: int| 0 <= k < s.len() && (#[trigger] s[k]).witness_id@ == id])
    } else {
        Option::None
    }
}

/// With unique identifiers, the record found under an identifier is the one
/// at any index that carries it.
pub proof fn lemma_record_at_is(s: Seq<AddressRecord>, id: Seq<u8>, i: int)
    requires
        unique_witness_ids(s),
        0 <= i < s.len(),
        s[i].witness_id@ == id,
    ensures
        spec_record_at(s, id) == Option::Some(s[i]),
{
    assert(exists|k: int| 0 <= k < s.len() && (#[trigger] s[k]).witness_id@ == id);
    let c = choose|k: int| 0 <= k < s.len() && (#[trigger] s[k]).witness_id@ == id;
    if c < i {
        assert(s[c].witness_id@ != s[i].witness_id@);
    }
    if i < c {
        assert(s[i].witness_id@ != s[c].witness_id@);
    }
}

/// An identifier carried by no record is found under no record.
pub proof fn lemma_record_at_none(s: Seq<AddressRecord>, id: Seq<u8>)
    requires
        forall|k: int| 0 <= k < s.len() ==> (#[trigger] s[k]).witness_id@ != id,
    ensures
        spec_record_at(s, id) is None,
{
}

/// An identifier found under no record is carried by no record.
pub proof fn lemma_record_at_none_inv(s: Seq<AddressRecord>, id: Seq<u8>)
    requires
        spec_record_at(s, id) is None,
    ensures
        forall|k: int| 0 <= k < s.len() ==> (#[trigger] s[k]).witness_id@ != id,
{
    assert forall|k: int| 0 <= k < s.len() implies (#[trigger] s[k]).witness_id@ != id by {
        if s[k].witness_id@ == id {
            assert(exists|j: int| 0 <= j < s.len() && (#[trigger] s[j]).witness_id@ == id);
        }
    }
}

/// Whether a write found no prior record (`Created`) or replaced one
/// (`Updated`).
#[derive(Clone, Copy, PartialEq, Eq, Structural, Debug)]
pub enum WriteOutcome {
    Created,
    Updated,
}

impl WitnessRegistry {
    /// Identifiers are unique.
    pub open spec fn wf(&self) -> bool {
        unique_witness_ids(self.records@)
    }

    /// The address stored under a witness identifier, if any.
    pub open spec fn spec_get_address(&self, id: Seq<u8>) -> Option<Seq<u8>> {
        match spec_record_at(self.records@, id) {
            Option::Some(rec) => Option::Some(rec.address@),
            Option::None => Option::None,
        }
    }

    /// An empty registry: nothing is stored under any identifier.
    pub fn new() -> (r: WitnessRegistry)
        ensures
            r.wf(),
            forall|id: Seq<u8>| (#[trigger] r.spec_get_address(id)) is None,
    {
        WitnessRegistry { records: Vec::new() }
    }

    /// The index of the record holding an identifier, if one does.
    fn find_index(&self, id: &Vec<u8>) -> (r: Option<usize>)
        requires
            self.wf(),
        ensures
            match r {
                Option::Some(i) => i < self.records@.len() && self.records@[i as int].witness_id@
                    == id@ && spec_record_at(self.records@, id@) == Option::Some(
                    self.records@[i as int],
                ),
                Option::None => spec_record_at(self.records@, id@) is None,
            },
    {
        let n = self.records.len();
        let mut i: usize = 0;
        while i < n
            invariant
                self.wf(),
                i <= n,
                n == self.records@.len(),
                forall|j: int| 0 <= j < i ==> (#[trigger] self.records@[j]).witness_id@ != id@,
            decreases n - i,
        {
            if bytes_eq(&self.records[i].witness_id, id) {
                proof {
                    lemma_record_at_is(self.records@, id@, i as int);
                }
                return Option::Some(i);
            }
            i = i + 1;
        }
        proof {
            lemma_record_at_none(self.records@, id@);
        }
        Option::None
    }

    /// Read-only lookup of the address stored for a witness identifier.
    pub fn get(&self, id: &Vec<u8>) -> (r: Option<&Vec<u8>>)
        requires
            self.wf(),
        ensures
            match r {
                Option::Some(a) => self.spec_get_address(id@) == Option::Some(a@),
                Option::None => self.spec_get_address(id@) is None,
            },
    {
        match self.find_index(id) {
            Option::Some(i) => Option::Some(&self.records[i].address),
            Option::None => Option::None,
        }
    }

    /// Stores an address for a witness identifier, replacing any previous
    /// record, and reports whether the write created the record or updated
    /// an existing one. Records for other identifiers are untouched.
    pub fn put(&mut self, id: &Vec<u8>, address: Vec<u8>) -> (r: WriteOutcome)
        requires
            old(self).wf(),
        ensures
            final(self).wf(),
            final(self).spec_get_address(id@) == Option::Some(address@),
            (r is Created <==> old(self).spec_get_address(id@) is None),
            forall|other: Seq<u8>|
                other != id@ ==> #[trigger] final(self).spec_get_address(other) == old(
                    self,
                ).spec_get_address(other),
    {
        let ghost old_records = self.records@;
        match self.find_index(id) {
            Option::None => {
                proof {
                    lemma_record_at_none_inv(old_records, id@);
                }
                let rec = AddressRecord { witness_id: clone_bytes(id), address };
                self.records.push(rec);
                proof {
                    let new_records = self.records@;
                    assert forall|a: int, b: int| 0 <= a < b < new_records.len() implies (
                    #[trigger] new_records[a]).witness_id@ != (
                    #[trigger] new_records[b]).witness_id@ by {
                        if b == new_records.len() - 1 {
                            assert(old_records[a].witness_id@ != id@);
                        }
                    }
                    lemma_record_at_is(new_records, id@, new_records.len() - 1);
                    assert forall|other: Seq<u8>| other != id@ implies spec_record_at(
                        new_records,
                        other,
                    ) == spec_record_at(old_records, other) by {
                        lemma_record_at_frame_push(old_records, new_records.last(), other);
                    }
                }
                WriteOutcome::Created
            },
            Option::Some(i) => {
                let rec = &mut self.records[i];
                rec.address = address;
                proof {
                    let new_records = self.records@;
                    assert forall|a: int, b: int| 0 <= a < b < new_records.len() implies (
                    #[trigger] new_records[a]).witness_id@ != (
                    #[trigger] new_records[b]).witness_id@ by {
                        assert(old_records[a].witness_id@ != old_records[b].witness_id@);
                    }
                    lemma_record_at_is(new_records, id@, i as int);
                    assert forall|other: Seq<u8>| other != id@ implies spec_record_at(
                        new_records,
                        other,
                    ) == spec_record_at(old_records, other) by {
                        lemma_record_at_frame_update(
                            old_records,
                            i as int,
                            new_records[i as int],
                            other,
                        );
                    }
                }
                WriteOutcome::Updated
            },
        }
    }
}

/// Pushing a record for a fresh identifier changes what is found under no
/// other identifier.
pub proof fn lemma_record_at_frame_push(s: Seq<AddressRecord>, rec: AddressRecord, other: Seq<u8>)
    requires
        unique_witness_ids(s),
        other != rec.witness_id@,
        forall|k: int| 0 <= k < s.len() ==> (#[trigger] s[k]).witness_id@ != rec.witness_id@,
    ensures
        spec_record_at(s.push(rec), other) == spec_record_at(s, other),
{
    let s2 = s.push(rec);
    if exists|k: int| 0 <= k < s.len() && (#[trigger] s[k]).witness_id@ == other {
        let j = choose|k: int| 0 <= k < s.len() && (#[trigger] s[k]).witness_id@ == other;
        lemma_record_at_is(s, other, j);
        assert(s2[j] == s[j]);
        assert forall|a: int, b: int| 0 <= a < b < s2.len() implies (#[trigger] s2[a]).witness_id@
            != (#[trigger] s2[b]).witness_id@ by {
            if b < s.len() {
                assert(s[a].witness_id@ != s[b].witness_id@);
            } else {
                assert(s2[a] == s[a]);
            }
        }
        lemma_record_at_is(s2, other, j);
    } else {
        assert forall|k: int| 0 <= k < s2.len() implies (#[trigger] s2[k]).witness_id@ != other by {
            if k < s.len() {
                assert(s[k].witness_id@ != other);
            }
        }
        lemma_record_at_none(s2, other);
        lemma_record_at_none(s, other);
    }
}

/// Replacing the record at one index, keeping its identifier, changes what
/// is found under no other identifier.
pub proof fn lemma_record_at_frame_update(
    s: Seq<AddressRecord>,
    i: int,
    rec: AddressRecord,
    other: Seq<u8>,
)
    requires
        unique_witness_ids(s),
        0 <= i < s.len(),
        rec.witness_id@ == s[i].witness_id@,
        other != rec.witness_id@,
    ensures
        spec_record_at(s.update(i, rec), other) == spec_record_at(s, other),
{
    let s2 = s.update(i, rec);
    assert forall|a: int, b: int| 0 <= a < b < s2.len() implies (#[trigger] s2[a]).witness_id@ != (
    #[trigger] s2[b]).witness_id@ by {
        assert(s[a].witness_id@ != s[b].witness_id@);
    }
    if exists|k: int| 0 <= k < s.len() && (#[trigger] s[k]).witness_id@ == other {
        let j = choose|k: int| 0 <= k < s.len() && (#[trigger] s[k]).witness_id@ == other;
        lemma_record_at_is(s, other, j);
        assert(j != i);
        assert(s2[j] == s[j]);
        lemma_record_at_is(s2, other, j);
    } else {
        assert forall|k: int| 0 <= k < s2.len() implies (#[trigger] s2[k]).witness_id@ != other by {
            if k != i {
                assert(s[k].witness_id@ != other);
            }
        }
        lemma_record_at_none(s2, other);
        lemma_record_at_none(s, other);
    }
}

} // verus!
