//! The bound-import directory: a table of 8-byte records in which the
//! forwarders of a library follow the library, and theirs follow them.
use crate::bytes::{field_u16, field_u32, invalid, u16_at, u32_at};
use crate::error::{agrees, AppResult, ReasonCode};
use crate::pe::imports::{
    absent, directory_entry, directory_or_none, lemma_prepended_nothing, lemma_prepended_push,
    prepended, DESCRIPTOR_LIMIT, IMAGE_DIRECTORY_ENTRY_BOUND_IMPORT,
};
use crate::pe::rva::{c_string_at_rva, file_offset, read_c_string_from_rva, rva_to_file_offset};
use crate::pe::types::{
    BoundImportDescriptor, BoundImportDescriptorModel, DataDirectory, PeSection, PeSectionModel,
};
use vstd::prelude::*;

verus! {

/// Where a bound-import table lies and what its names count from.
#[verifier::ext_equal]
pub struct BoundTable {
    pub bytes: Seq<u8>,
    pub sections: Seq<PeSectionModel>,
    /// The address that the offsets of names are added to.
    pub base: u32,
    /// The position of the table in the file.
    pub start: int,
    /// The size of the table in bytes.
    pub size: int,
}

/// One record of the table, with its name looked up.
#[verifier::ext_equal]
pub struct BoundRecord {
    pub time_date_stamp: u32,
    pub module_name: Seq<char>,
    /// How many of the following records forward from this one.
    pub forwarders: nat,
}

/// A list of descriptors and the number of the record behind them.
pub type BoundRun = Option<(Seq<BoundImportDescriptorModel>, int)>;

impl BoundTable {
    /// Record `k` lies inside the table.
    pub open spec fn has(self, k: int) -> bool {
        (k + 1) * 8 <= self.size
    }

    /// The time stamp of record `k`.
    pub open spec fn stamp(self, k: int) -> Option<u32> {
        u32_at(self.bytes, self.start + k * 8)
    }

    /// Record `k`.
    pub open spec fn record(self, k: int) -> Option<BoundRecord> {
        match (
            self.stamp(k),
            u16_at(self.bytes, self.start + (k * 8 + 4)),
            u16_at(self.bytes, self.start + (k * 8 + 6)),
        ) {
            (Some(time_date_stamp), Some(name_offset), Some(forwarders)) => if self.base
                + name_offset > u32::MAX {
                None
            } else {
                match c_string_at_rva(self.bytes, self.sections, (self.base + name_offset) as u32) {
                    None => None,
                    Some(module_name) => Some(
                        BoundRecord { time_date_stamp, module_name, forwarders: forwarders as nat },
                    ),
                }
            },
            _ => None,
        }
    }

    /// The number of the first record after `count` records from `k` on that
    /// still lies inside the table, or of the first one outside.
    pub open spec fn skip(self, k: int, count: nat) -> int
        decreases count,
    {
        if count == 0 || !self.has(k) {
            k
        } else {
            self.skip(k + 1, (count - 1) as nat)
        }
    }

    /// Up to `count` forwarders of a forwarder, from record `k` on. Whatever
    /// forwards from them in turn is passed over.
    pub open spec fn inner(self, k: int, count: nat) -> BoundRun
        decreases count,
    {
        if count == 0 || !self.has(k) {
            Some((Seq::empty(), k))
        } else {
            match self.record(k) {
                None => None,
                Some(record) => headed(
                    BoundImportDescriptorModel {
                        time_date_stamp: record.time_date_stamp,
                        module_name: record.module_name,
                        forwarder_chain: Seq::empty(),
                    },
                    self.inner(self.skip(k + 1, record.forwarders), (count - 1) as nat),
                ),
            }
        }
    }

    /// Up to `count` forwarders of a library, from record `k` on.
    pub open spec fn outer(self, k: int, count: nat) -> BoundRun
        decreases count,
    {
        if count == 0 || !self.has(k) {
            Some((Seq::empty(), k))
        } else {
            match self.record(k) {
                None => None,
                Some(record) => match self.inner(k + 1, record.forwarders) {
                    None => None,
                    Some((chain, next)) => headed(
                        BoundImportDescriptorModel {
                            time_date_stamp: record.time_date_stamp,
                            module_name: record.module_name,
                            forwarder_chain: chain,
                        },
                        self.outer(next, (count - 1) as nat),
                    ),
                },
            }
        }
    }

    /// The libraries from record `k` on, `done` of them having come before, up
    /// to the record without a time stamp or the end of the table.
    pub open spec fn libraries(self, k: int, done: int) -> Option<Seq<BoundImportDescriptorModel>>
        decreases DESCRIPTOR_LIMIT - done,
    {
        if !self.has(k) {
            Some(Seq::empty())
        } else if done >= DESCRIPTOR_LIMIT {
            None
        } else {
            match self.stamp(k) {
                None => None,
                Some(stamp) => if stamp == 0 {
                    Some(Seq::empty())
                } else {
                    match self.record(k) {
                        None => None,
                        Some(record) => match self.outer(k + 1, record.forwarders) {
                            None => None,
                            Some((chain, next)) => prepended(
                                seq![
                                    BoundImportDescriptorModel {
                                        time_date_stamp: record.time_date_stamp,
                                        module_name: record.module_name,
                                        forwarder_chain: chain,
                                    },
                                ],
                                self.libraries(next, done + 1),
                            ),
                        },
                    }
                },
            }
        }
    }
}

/// `first` in front of the descriptors of `rest`.
pub open spec fn headed(first: BoundImportDescriptorModel, rest: BoundRun) -> BoundRun {
    match rest {
        None => None,
        Some((descriptors, next)) => Some((seq![first] + descriptors, next)),
    }
}

/// `done` in front of the descriptors of `rest`.
pub open spec fn continued(done: Seq<BoundImportDescriptorModel>, rest: BoundRun) -> BoundRun {
    match rest {
        None => None,
        Some((descriptors, next)) => Some((done + descriptors, next)),
    }
}

proof fn lemma_continued(
    done: Seq<BoundImportDescriptorModel>,
    first: BoundImportDescriptorModel,
    rest: BoundRun,
)
    ensures
        continued(done, headed(first, rest)) == continued(done.push(first), rest),
{
    if let Some((descriptors, next)) = rest {
        assert(done + (seq![first] + descriptors) =~= done.push(first) + descriptors);
    }
}

proof fn lemma_continued_nothing(rest: BoundRun)
    ensures
        continued(Seq::empty(), rest) == rest,
{
    if let Some((descriptors, next)) = rest {
        assert(Seq::<BoundImportDescriptorModel>::empty() + descriptors =~= descriptors);
    }
}

/// The bound imports of the directory table.
pub open spec fn bound_imports(
    bytes: Seq<u8>,
    sections: Seq<PeSectionModel>,
    directory: DataDirectory,
    size_of_headers: u32,
) -> Option<Seq<BoundImportDescriptorModel>> {
    if absent(directory) {
        Some(Seq::empty())
    } else {
        match file_offset(directory.virtual_address, 8, sections, size_of_headers) {
            None => None,
            Some(start) => (BoundTable {
                bytes,
                sections,
                base: directory.virtual_address,
                start,
                size: directory.size as int,
            }).libraries(0, 0),
        }
    }
}

struct BoundReader<'a> {
    bytes: &'a [u8],
    sections: &'a [PeSection],
    base: u32,
    start: usize,
    size: u32,
}

impl<'a> BoundReader<'a> {
    spec fn table(&self) -> BoundTable {
        BoundTable {
            bytes: self.bytes@,
            sections: self.sections.deep_view(),
            base: self.base,
            start: self.start as int,
            size: self.size as int,
        }
    }

    fn has(&self, k: u32) -> (inside: bool)
        requires
            k * 8 <= self.size,
        ensures
            inside == self.table().has(k as int),
            inside ==> (k + 1) * 8 <= self.size,
    {
        self.size - k * 8 >= 8
    }

    fn record(&self, k: u32) -> (outcome: AppResult<(u32, String, u16)>)
        requires
            self.table().has(k as int),
        ensures
            match outcome {
                Ok((stamp, name, forwarders)) => self.table().record(k as int) == Some(
                    BoundRecord {
                        time_date_stamp: stamp,
                        module_name: name@,
                        forwarders: forwarders as nat,
                    },
                ),
                Err(error) => self.table().record(k as int) is None && error.code
                    == ReasonCode::RcPeParseInvalid,
            },
    {
        let place: usize = (k * 8) as usize;
        let stamp: u32 = match field_u32(self.bytes, self.start, place, "bound import time stamp") {
            Err(error) => {
                return Err(error);
            },
            Ok(value) => value,
        };
        let name_offset: u16 = match field_u16(
            self.bytes,
            self.start,
            place + 4,
            "bound import name offset",
        ) {
            Err(error) => {
                return Err(error);
            },
            Ok(value) => value,
        };
        let forwarders: u16 = match field_u16(
            self.bytes,
            self.start,
            place + 6,
            "bound import forwarder count",
        ) {
            Err(error) => {
                return Err(error);
            },
            Ok(value) => value,
        };
        match self.base.checked_add(name_offset as u32) {
            None => invalid("bound import name RVA overflow"),
            Some(name_rva) => match read_c_string_from_rva(
                self.bytes,
                self.sections,
                name_rva,
                "bound import DLL name",
            ) {
                Err(error) => Err(error),
                Ok(name) => Ok((stamp, name, forwarders)),
            },
        }
    }

    fn skip(&self, k: u32, count: u16) -> (next: u32)
        requires
            k * 8 <= self.size,
        ensures
            next == self.table().skip(k as int, count as nat),
            k <= next,
            next * 8 <= self.size,
    {
        let mut next: u32 = k;
        let mut left: u16 = count;
        while left > 0 && self.has(next)
            invariant
                k <= next,
                next * 8 <= self.size,
                self.table().skip(k as int, count as nat) == self.table().skip(
                    next as int,
                    left as nat,
                ),
            decreases left,
        {
            next += 1;
            left -= 1;
        }
        next
    }

    fn inner(&self, k: u32, count: u16) -> (outcome: AppResult<(Vec<BoundImportDescriptor>, u32)>)
        requires
            k * 8 <= self.size,
        ensures
            match outcome {
                Ok((chain, next)) => self.table().inner(k as int, count as nat) == Some(
                    (chain.deep_view(), next as int),
                ) && k <= next && next * 8 <= self.size,
                Err(error) => self.table().inner(k as int, count as nat) is None && error.code
                    == ReasonCode::RcPeParseInvalid,
            },
    {
        let mut chain: Vec<BoundImportDescriptor> = Vec::new();
        let mut at: u32 = k;
        let mut left: u16 = count;
        let ghost whole = self.table().inner(k as int, count as nat);
        proof {
            assert(chain.deep_view() =~= Seq::<BoundImportDescriptorModel>::empty());
            lemma_continued_nothing(whole);
        }
        while left > 0 && self.has(at)
            invariant
                k <= at,
                at * 8 <= self.size,
                whole == self.table().inner(k as int, count as nat),
                whole == continued(
                    chain.deep_view(),
                    self.table().inner(at as int, left as nat),
                ),
            decreases left,
        {
            match self.record(at) {
                Err(error) => {
                    return Err(error);
                },
                Ok((time_date_stamp, module_name, forwarders)) => {
                    let next: u32 = self.skip(at + 1, forwarders);
                    let descriptor = BoundImportDescriptor {
                        time_date_stamp,
                        module_name,
                        forwarder_chain: Vec::new(),
                    };
                    let ghost before = chain.deep_view();
                    proof {
                        assert(descriptor.model().forwarder_chain =~= Seq::<
                            BoundImportDescriptorModel,
                        >::empty());
                        lemma_continued(
                            before,
                            descriptor.deep_view(),
                            self.table().inner(next as int, (left - 1) as nat),
                        );
                    }
                    chain.push(descriptor);
                    assert(chain.deep_view() =~= before.push(descriptor.deep_view()));
                    at = next;
                    left -= 1;
                },
            }
        }
        assert(chain.deep_view() + Seq::<BoundImportDescriptorModel>::empty()
            =~= chain.deep_view());
        Ok((chain, at))
    }

    fn outer(&self, k: u32, count: u16) -> (outcome: AppResult<(Vec<BoundImportDescriptor>, u32)>)
        requires
            k * 8 <= self.size,
        ensures
            match outcome {
                Ok((chain, next)) => self.table().outer(k as int, count as nat) == Some(
                    (chain.deep_view(), next as int),
                ) && k <= next && next * 8 <= self.size,
                Err(error) => self.table().outer(k as int, count as nat) is None && error.code
                    == ReasonCode::RcPeParseInvalid,
            },
    {
        let mut chain: Vec<BoundImportDescriptor> = Vec::new();
        let mut at: u32 = k;
        let mut left: u16 = count;
        let ghost whole = self.table().outer(k as int, count as nat);
        proof {
            assert(chain.deep_view() =~= Seq::<BoundImportDescriptorModel>::empty());
            lemma_continued_nothing(whole);
        }
        while left > 0 && self.has(at)
            invariant
                k <= at,
                at * 8 <= self.size,
                whole == self.table().outer(k as int, count as nat),
                whole == continued(
                    chain.deep_view(),
                    self.table().outer(at as int, left as nat),
                ),
            decreases left,
        {
            match self.record(at) {
                Err(error) => {
                    return Err(error);
                },
                Ok((time_date_stamp, module_name, forwarders)) => match self.inner(
                    at + 1,
                    forwarders,
                ) {
                    Err(error) => {
                        return Err(error);
                    },
                    Ok((forwarder_chain, next)) => {
                        let descriptor = BoundImportDescriptor {
                            time_date_stamp,
                            module_name,
                            forwarder_chain,
                        };
                        let ghost before = chain.deep_view();
                        proof {
                            assert(descriptor.model().forwarder_chain
                                =~= forwarder_chain.deep_view());
                            lemma_continued(
                                before,
                                descriptor.deep_view(),
                                self.table().outer(next as int, (left - 1) as nat),
                            );
                        }
                        chain.push(descriptor);
                        assert(chain.deep_view() =~= before.push(descriptor.deep_view()));
                        at = next;
                        left -= 1;
                    },
                },
            }
        }
        assert(chain.deep_view() + Seq::<BoundImportDescriptorModel>::empty()
            =~= chain.deep_view());
        Ok((chain, at))
    }

    fn libraries(&self) -> (outcome: AppResult<Vec<BoundImportDescriptor>>)
        ensures
            agrees(outcome, ReasonCode::RcPeParseInvalid, self.table().libraries(0, 0)),
    {
        let mut descriptors: Vec<BoundImportDescriptor> = Vec::new();
        let mut at: u32 = 0;
        let ghost whole = self.table().libraries(0, 0);
        proof {
            assert(descriptors.deep_view() =~= Seq::<BoundImportDescriptorModel>::empty());
            lemma_prepended_nothing(whole);
        }
        while self.has(at)
            invariant
                at * 8 <= self.size,
                descriptors.len() <= DESCRIPTOR_LIMIT,
                whole == self.table().libraries(0, 0),
                whole == prepended(
                    descriptors.deep_view(),
                    self.table().libraries(at as int, descriptors.len() as int),
                ),
            decreases DESCRIPTOR_LIMIT - descriptors.len(),
        {
            if descriptors.len() >= DESCRIPTOR_LIMIT {
                return invalid("bound import descriptor table exceeded the safety limit");
            }
            match field_u32(self.bytes, self.start, (at * 8) as usize, "bound import time stamp") {
                Err(error) => {
                    return Err(error);
                },
                Ok(stamp) => {
                    if stamp == 0 {
                        assert(descriptors.deep_view() + Seq::<BoundImportDescriptorModel>::empty()
                            =~= descriptors.deep_view());
                        return Ok(descriptors);
                    }
                },
            }
            match self.record(at) {
                Err(error) => {
                    return Err(error);
                },
                Ok((time_date_stamp, module_name, forwarders)) => match self.outer(
                    at + 1,
                    forwarders,
                ) {
                    Err(error) => {
                        return Err(error);
                    },
                    Ok((forwarder_chain, next)) => {
                        let descriptor = BoundImportDescriptor {
                            time_date_stamp,
                            module_name,
                            forwarder_chain,
                        };
                        let ghost before = descriptors.deep_view();
                        proof {
                            assert(descriptor.model().forwarder_chain
                                =~= forwarder_chain.deep_view());
                            lemma_prepended_push(
                                before,
                                descriptor.deep_view(),
                                self.table().libraries(next as int, descriptors.len() + 1),
                            );
                        }
                        descriptors.push(descriptor);
                        assert(descriptors.deep_view() =~= before.push(descriptor.deep_view()));
                        at = next;
                    },
                },
            }
        }
        assert(descriptors.deep_view() + Seq::<BoundImportDescriptorModel>::empty()
            =~= descriptors.deep_view());
        Ok(descriptors)
    }
}

/// The libraries whose addresses the linker computed in advance.
pub fn parse_bound_import_directory(
    bytes: &[u8],
    sections: &[PeSection],
    directories: &[DataDirectory],
    size_of_headers: u32,
) -> (outcome: AppResult<Vec<BoundImportDescriptor>>)
    ensures
        agrees(
            outcome,
            ReasonCode::RcPeParseInvalid,
            bound_imports(
                bytes@,
                sections.deep_view(),
                directory_entry(directories@, IMAGE_DIRECTORY_ENTRY_BOUND_IMPORT as int),
                size_of_headers,
            ),
        ),
{
    let directory: DataDirectory = directory_or_none(
        directories,
        IMAGE_DIRECTORY_ENTRY_BOUND_IMPORT,
    );
    if directory.virtual_address == 0 || directory.size == 0 {
        let none: Vec<BoundImportDescriptor> = Vec::new();
        assert(none.deep_view() =~= Seq::<BoundImportDescriptorModel>::empty());
        return Ok(none);
    }
    match rva_to_file_offset(directory.virtual_address, 8, sections, size_of_headers) {
        Err(error) => Err(error),
        Ok(start) => {
            let reader = BoundReader {
                bytes,
                sections,
                base: directory.virtual_address,
                start,
                size: directory.size,
            };
            reader.libraries()
        },
    }
}

impl BoundTable {
    /// The `count` records from `k` on are there, can be read, and have no
    /// forwarders of their own.
    pub open spec fn flat(self, k: int, count: nat) -> bool {
        forall|i: int|
            k <= i < k + count ==> self.has(i) && (#[trigger] self.record(i)) is Some
                && self.record(i)->0.forwarders == 0
    }
}

/// Records are passed over one by one, as many as asked for and as the table
/// has.
pub proof fn lemma_records_skipped(table: BoundTable, k: int, count: nat)
    requires
        table.size >= 0,
    ensures
        k <= table.skip(k, count) <= k + count,
        table.skip(k, count) == k + count || !table.has(table.skip(k, count)),
        forall|i: int| k <= i < table.skip(k, count) ==> #[trigger] table.has(i),
    decreases count,
{
    if count > 0 && table.has(k) {
        lemma_records_skipped(table, k + 1, (count - 1) as nat);
    }
}

proof fn lemma_flat_outer(table: BoundTable, k: int, count: nat)
    requires
        table.flat(k, count),
    ensures
        table.outer(k, count) is Some,
        (table.outer(k, count)->0).1 == k + count,
        (table.outer(k, count)->0).0.len() == count,
        forall|i: int|
            0 <= i < count ==> {
                let entry = #[trigger] (table.outer(k, count)->0).0[i];
                let record = table.record(k + i)->0;
                &&& entry.time_date_stamp == record.time_date_stamp
                &&& entry.module_name == record.module_name
                &&& entry.forwarder_chain.len() == 0
            },
    decreases count,
{
    if count > 0 {
        assert(table.record(k) is Some);
        assert(table.flat(k + 1, (count - 1) as nat)) by {
            assert forall|i: int| k + 1 <= i < k + count implies table.has(i) && (
            #[trigger] table.record(i)) is Some && table.record(i)->0.forwarders == 0 by {}
        }
        lemma_flat_outer(table, k + 1, (count - 1) as nat);
        assert(table.inner(k + 1, 0) == Some((Seq::<BoundImportDescriptorModel>::empty(), k + 1)));
        let list = (table.outer(k, count)->0).0;
        let rest = (table.outer(k + 1, (count - 1) as nat)->0).0;
        assert forall|i: int| 0 <= i < count implies {
            let entry = #[trigger] list[i];
            let record = table.record(k + i)->0;
            &&& entry.time_date_stamp == record.time_date_stamp
            &&& entry.module_name == record.module_name
            &&& entry.forwarder_chain.len() == 0
        } by {
            if i > 0 {
                assert(list[i] == rest[i - 1]);
                assert(k + 1 + (i - 1) == k + i);
            }
        }
    }
}

/// A library is the record with its name and time, and its forwarders are as
/// many records behind it as it says, in order; the next library stands behind
/// them. A record without a time ends the list.
pub proof fn lemma_library_with_forwarders(table: BoundTable, k: int, done: int)
    requires
        table.has(k),
        table.record(k) is Some,
        done < DESCRIPTOR_LIMIT,
        table.flat(k + 1, table.record(k)->0.forwarders),
    ensures
        ({
            let record = table.record(k)->0;
            let all = table.libraries(k, done);
            let rest = table.libraries(k + 1 + record.forwarders, done + 1);
            &&& record.time_date_stamp == 0 ==> all == Some(
                Seq::<BoundImportDescriptorModel>::empty(),
            )
            &&& record.time_date_stamp != 0 ==> (all is Some <==> rest is Some)
            &&& record.time_date_stamp != 0 && all is Some ==> {
                let library = all->0[0];
                &&& all->0.drop_first() == rest->0
                &&& library.time_date_stamp == record.time_date_stamp
                &&& library.module_name == record.module_name
                &&& library.forwarder_chain.len() == record.forwarders
                &&& forall|i: int|
                    0 <= i < record.forwarders ==> {
                        let forwarder = table.record(k + 1 + i)->0;
                        &&& (#[trigger] library.forwarder_chain[i]).time_date_stamp
                            == forwarder.time_date_stamp
                        &&& library.forwarder_chain[i].module_name == forwarder.module_name
                        &&& library.forwarder_chain[i].forwarder_chain.len() == 0
                    }
            }
        }),
{
    let record = table.record(k)->0;
    lemma_flat_outer(table, k + 1, record.forwarders);
    let all = table.libraries(k, done);
    let rest = table.libraries(k + 1 + record.forwarders, done + 1);
    if record.time_date_stamp != 0 && rest is Some {
        assert(all->0.drop_first() =~= rest->0);
    }
}

proof fn lemma_flat_inner(table: BoundTable, k: int, count: nat)
    requires
        table.flat(k, count),
    ensures
        table.inner(k, count) matches Some((list, next)) && next == k + count && list.len() == count
            && forall|i: int|
            0 <= i < count ==> {
                let record = table.record(k + i)->0;
                &&& (#[trigger] list[i]).time_date_stamp == record.time_date_stamp
                &&& list[i].module_name == record.module_name
                &&& list[i].forwarder_chain.len() == 0
            },
    decreases count,
{
    if count > 0 {
        assert(table.record(k) is Some);
        let fewer = (count - 1) as nat;
        assert(table.flat(k + 1, fewer));
        lemma_flat_inner(table, k + 1, fewer);
        assert(table.skip(k + 1, 0) == k + 1);
        let (list, next) = table.inner(k, count)->0;
        let (rest, end) = table.inner(k + 1, fewer)->0;
        assert forall|i: int| 0 <= i < count implies {
            let record = table.record(k + i)->0;
            &&& (#[trigger] list[i]).time_date_stamp == record.time_date_stamp
            &&& list[i].module_name == record.module_name
            &&& list[i].forwarder_chain.len() == 0
        } by {
            if i > 0 {
                assert(list[i] == rest[i - 1]);
                assert(k + 1 + (i - 1) == k + i);
            }
        }
    }
}

/// A forwarder with forwarders of its own has those as its chain, and the next
/// one stands behind them; one level further down they are passed over.
pub proof fn lemma_forwarder_with_own(table: BoundTable, k: int, count: nat)
    requires
        0 <= k,
        count > 0,
        table.has(k),
        table.record(k) is Some,
        table.flat(k + 1, table.record(k)->0.forwarders),
    ensures
        ({
            let record = table.record(k)->0;
            let next = k + 1 + record.forwarders;
            let all = table.outer(k, count);
            let rest = table.outer(next, (count - 1) as nat);
            &&& all is Some <==> rest is Some
            &&& all matches Some((list, end)) ==> {
                &&& list.len() > 0
                &&& (list.drop_first(), end) == rest->0
                &&& list[0].time_date_stamp == record.time_date_stamp
                &&& list[0].module_name == record.module_name
                &&& list[0].forwarder_chain.len() == record.forwarders
                &&& forall|i: int|
                    0 <= i < record.forwarders ==> (#[trigger]
                    list[0].forwarder_chain[i]).module_name == table.record(k + 1 + i)->0.module_name
            }
        }),
        ({
            let record = table.record(k)->0;
            let next = k + 1 + record.forwarders;
            let all = table.inner(k, count);
            let rest = table.inner(next, (count - 1) as nat);
            &&& all is Some <==> rest is Some
            &&& all matches Some((list, end)) ==> {
                &&& list.len() > 0
                &&& (list.drop_first(), end) == rest->0
                &&& list[0].time_date_stamp == record.time_date_stamp
                &&& list[0].module_name == record.module_name
                &&& list[0].forwarder_chain.len() == 0
            }
        }),
{
    let record = table.record(k)->0;
    let next = k + 1 + record.forwarders;
    lemma_flat_inner(table, k + 1, record.forwarders);
    lemma_records_skipped(table, k + 1, record.forwarders);
    let passed = table.skip(k + 1, record.forwarders);
    if passed < next {
        assert(table.record(passed) is Some);
    }
    let fewer = (count - 1) as nat;
    if let Some((list, end)) = table.outer(next, fewer) {
        assert((table.outer(k, count)->0).0.drop_first() =~= list);
    }
    if let Some((list, end)) = table.inner(next, fewer) {
        assert((table.inner(k, count)->0).0.drop_first() =~= list);
    }
}

} // verus!
