//! Printers, print jobs and printer device contexts.
use crate::ids::{keys_of, lists_keys, sorted_keys};
use crate::perf::clock::now;
use crate::print::pdf::{document_objects, generate_pdf, pages_of, pdf_file};
use crate::text::{chars_of, decimal, push_decimal, push_text, same_text};
use std::collections::BTreeMap;
use std::time::Instant;
use vstd::prelude::*;

verus! {

broadcast use vstd::std_specs::btree::group_btree_axioms;

pub type PrinterHandle = u64;

pub type PrinterDcHandle = u64;

/// The printer that is always there.
pub const DEFAULT_PRINTER: &'static str = "Microsoft Print to PDF";

/// The handle of the first printer device context.
pub const FIRST_DC_HANDLE: u64 = 0x2000;

#[derive(Clone, Copy, Debug, PartialEq, Eq, Structural)]
pub enum PrintJobStatus {
    Idle,
    Spooling,
    Printing,
    Completed,
    Deleted,
}

/// A document on its way to paper.
#[derive(Debug)]
pub struct PrintJob {
    pub id: u32,
    pub printer_handle: PrinterHandle,
    pub document_name: String,
    pub spool_data: Vec<u8>,
    pub page_count: u32,
    pub status: PrintJobStatus,
    pub started: Instant,
}

#[derive(Debug)]
pub struct PrinterInfo {
    pub name: String,
    pub port: String,
    pub driver: String,
    pub comment: String,
    pub location: String,
    pub status: u32,
    pub attributes: u32,
    pub jobs: u32,
    pub default_priority: u32,
}

/// A device context that draws on a printer.
#[derive(Debug)]
pub struct PrinterDc {
    pub handle: PrinterDcHandle,
    pub printer_name: String,
    pub job_id: Option<u32>,
}

/// A finished document and the file that it belongs in.
#[derive(Debug)]
pub struct PrintedDocument {
    pub file_name: String,
    pub pdf: Vec<u8>,
}

/// A text with underscores in place of its spaces.
pub open spec fn underscored(text: Seq<char>) -> Seq<char> {
    text.map_values(
        |c: char|
            if c == ' ' {
                '_'
            } else {
                c
            },
    )
}

/// The name of the file for a print job.
pub open spec fn output_name(job_id: u32, document: Seq<char>) -> Seq<char> {
    "print_"@ + decimal(job_id as nat) + "_"@ + underscored(document) + ".pdf"@
}

fn output_file_name(job_id: u32, document: &str) -> (name: String)
    ensures
        name@ == output_name(job_id, document@),
{
    let mut name = "print_".to_owned();
    push_decimal(&mut name, job_id as u64);
    push_text(&mut name, "_");
    let chars: Vec<char> = chars_of(document);
    let ghost start = name@;
    let mut i: usize = 0;
    assert(name@ =~= start + underscored(chars@).take(0));
    while i < chars.len()
        invariant
            i <= chars@.len(),
            name@ == start + underscored(chars@).take(i as int),
        decreases chars@.len() - i,
    {
        if chars[i] == ' ' {
            name.push('_');
        } else {
            name.push(chars[i]);
        }
        i += 1;
        assert(name@ =~= start + underscored(chars@).take(i as int));
    }
    push_text(&mut name, ".pdf");
    assert(name@ =~= output_name(job_id, document@));
    name
}

/// `handle` is the lowest one whose printer has the given name.
pub open spec fn first_named(
    printers: Map<PrinterHandle, PrinterInfo>,
    name: Seq<char>,
    handle: PrinterHandle,
) -> bool {
    &&& printers.contains_key(handle)
    &&& printers[handle].name@ == name
    &&& forall|other: PrinterHandle| #[trigger]
        printers.contains_key(other) && printers[other].name@ == name ==> handle <= other
}

/// No printer has the given name.
pub open spec fn none_named(printers: Map<PrinterHandle, PrinterInfo>, name: Seq<char>) -> bool {
    forall|other: PrinterHandle| #[trigger]
        printers.contains_key(other) ==> printers[other].name@ != name
}

/// The printers, what they print, and what draws on them.
pub struct PrintSubsystem {
    pub printers: BTreeMap<PrinterHandle, PrinterInfo>,
    pub jobs: BTreeMap<u32, PrintJob>,
    pub next_handle: PrinterHandle,
    pub next_job_id: u32,
    pub printer_dcs: BTreeMap<PrinterDcHandle, PrinterDc>,
    pub next_dc_handle: PrinterDcHandle,
    /// The job that each printer works on.
    pub active_jobs: BTreeMap<PrinterHandle, u32>,
}

/// The printers that work on a job.
pub open spec fn working_on(active_jobs: Map<PrinterHandle, u32>, job_id: u32) -> Set<
    PrinterHandle,
> {
    Set::new(
        |handle: PrinterHandle| active_jobs.contains_key(handle) && active_jobs[handle] == job_id,
    )
}

/// A subsystem with nothing but the printer to PDF files.
pub open spec fn is_fresh(state: Printing) -> bool {
    let printer = state.printers[1];
    &&& state.printers.dom() == set![1u64]
    &&& printer.name@ == DEFAULT_PRINTER@
    &&& printer.port@ == "PORTPROMPT:"@
    &&& printer.driver@ == DEFAULT_PRINTER@
    &&& printer.comment@ == "Print to PDF file"@
    &&& printer.location@ == ""@
    &&& printer.status == 0
    &&& printer.attributes == 4
    &&& printer.jobs == 0
    &&& printer.default_priority == 1
    &&& state.jobs == Map::<u32, PrintJob>::empty()
    &&& state.next_handle == 2
    &&& state.next_job_id == 1
    &&& state.printer_dcs == Map::<u64, PrinterDc>::empty()
    &&& state.next_dc_handle == FIRST_DC_HANDLE
    &&& state.active_jobs == Map::<u64, u32>::empty()
}

/// The state of a print subsystem.
#[verifier::ext_equal]
pub struct Printing {
    pub printers: Map<PrinterHandle, PrinterInfo>,
    pub jobs: Map<u32, PrintJob>,
    pub next_handle: PrinterHandle,
    pub next_job_id: u32,
    pub printer_dcs: Map<PrinterDcHandle, PrinterDc>,
    pub next_dc_handle: PrinterDcHandle,
    pub active_jobs: Map<PrinterHandle, u32>,
}

impl Printing {
    /// Every number that was given out lies below the next one to be given,
    /// and a printer works only on a job that there is.
    pub open spec fn numbered(self) -> bool {
        &&& forall|id: u32| #[trigger]
            self.jobs.contains_key(id) ==> id < self.next_job_id && self.jobs[id].id == id
        &&& forall|handle: PrinterHandle| #[trigger]
            self.printers.contains_key(handle) ==> handle < self.next_handle
        &&& forall|handle: PrinterDcHandle| #[trigger]
            self.printer_dcs.contains_key(handle) ==> handle < self.next_dc_handle
        &&& forall|handle: PrinterHandle| #[trigger]
            self.active_jobs.contains_key(handle) ==> self.jobs.contains_key(
                self.active_jobs[handle],
            )
    }
}

/// From one state to the next, bytes were appended to what a job spools, and
/// nothing else happened.
pub open spec fn wrote(before: Printing, after: Printing, job_id: u32, data: Seq<u8>) -> bool {
    let job = before.jobs[job_id];
    let longer = after.jobs[job_id].spool_data;
    &&& before.jobs.contains_key(job_id)
    &&& longer@ == job.spool_data@ + data
    &&& after == (Printing {
        jobs: before.jobs.insert(job_id, (PrintJob { spool_data: longer, ..job })),
        ..before
    })
}

/// What a job spools is all that was written to it, in the order in which it
/// was written.
pub proof fn lemma_written_in_order(states: Seq<Printing>, job_id: u32, parts: Seq<Seq<u8>>)
    requires
        states.len() == parts.len() + 1,
        forall|i: int|
            0 <= i < parts.len() ==> wrote(
                #[trigger] states[i],
                states[i + 1],
                job_id,
                parts[i],
            ),
        states[0].jobs.contains_key(job_id),
    ensures
        states.last().jobs.contains_key(job_id),
        states.last().jobs[job_id].spool_data@ == states[0].jobs[job_id].spool_data@
            + parts.flatten(),
        states.last().jobs[job_id].document_name == states[0].jobs[job_id].document_name,
        states.last().jobs[job_id].page_count == states[0].jobs[job_id].page_count,
        states.last().jobs.remove(job_id) == states[0].jobs.remove(job_id),
    decreases parts.len(),
{
    if parts.len() == 0 {
        assert(states[0].jobs[job_id].spool_data@ + parts.flatten()
            =~= states[0].jobs[job_id].spool_data@);
    } else {
        let front = parts.drop_last();
        let sooner = states.drop_last();
        assert forall|i: int| 0 <= i < front.len() implies wrote(
            #[trigger] sooner[i],
            sooner[i + 1],
            job_id,
            front[i],
        ) by {
            assert(wrote(states[i], states[i + 1], job_id, parts[i]));
        }
        lemma_written_in_order(sooner, job_id, front);
        let last = parts.len() - 1;
        assert(wrote(states[last], states[last + 1], job_id, parts[last]));
        parts.lemma_flatten_and_flatten_alt_are_equivalent();
        front.lemma_flatten_and_flatten_alt_are_equivalent();
        assert(parts.flatten() == front.flatten() + parts.last());
        assert(states.last().jobs[job_id].spool_data@ =~= states[0].jobs[job_id].spool_data@
            + parts.flatten());
        assert(states.last().jobs.remove(job_id) =~= sooner.last().jobs.remove(job_id));
    }
}

impl View for PrintSubsystem {
    type V = Printing;

    open spec fn view(&self) -> Printing {
        Printing {
            printers: self.printers@,
            jobs: self.jobs@,
            next_handle: self.next_handle,
            next_job_id: self.next_job_id,
            printer_dcs: self.printer_dcs@,
            next_dc_handle: self.next_dc_handle,
            active_jobs: self.active_jobs@,
        }
    }
}

impl PrintSubsystem {
    /// A subsystem with the printer to PDF files.
    pub fn new() -> (subsystem: Self)
        ensures
            is_fresh(subsystem@),
            subsystem@.numbered(),
    {
        let mut printers: BTreeMap<PrinterHandle, PrinterInfo> = BTreeMap::new();
        printers.insert(
            1,
            PrinterInfo {
                name: DEFAULT_PRINTER.to_owned(),
                port: "PORTPROMPT:".to_owned(),
                driver: DEFAULT_PRINTER.to_owned(),
                comment: "Print to PDF file".to_owned(),
                location: "".to_owned(),
                status: 0,
                attributes: 4,
                jobs: 0,
                default_priority: 1,
            },
        );
        assert(printers@.dom() =~= set![1u64]);
        PrintSubsystem {
            printers,
            jobs: BTreeMap::new(),
            next_handle: 2,
            next_job_id: 1,
            printer_dcs: BTreeMap::new(),
            next_dc_handle: FIRST_DC_HANDLE,
            active_jobs: BTreeMap::new(),
        }
    }

    /// The printer with the given name, or the default one. Of several the one
    /// with the lowest handle is taken.
    pub fn open_printer(&mut self, name: Option<&str>) -> (handle: Option<PrinterHandle>)
        ensures
            final(self)@ == old(self)@,
            ({
                let wanted = match name {
                    Some(given) => given@,
                    None => DEFAULT_PRINTER@,
                };
                match handle {
                    Some(found) => first_named(old(self)@.printers, wanted, found),
                    None => none_named(old(self)@.printers, wanted),
                }
            }),
    {
        let wanted: &str = match name {
            Some(given) => given,
            None => DEFAULT_PRINTER,
        };
        let handles: Vec<u64> = sorted_keys(&self.printers);
        let ghost printers = self.printers@;
        let mut i: usize = 0;
        while i < handles.len()
            invariant
                i <= handles@.len(),
                self@ == old(self)@,
                printers == self.printers@,
                lists_keys(handles@, printers),
                forall|j: int| 0 <= j < i ==> printers[#[trigger] handles@[j]].name@ != wanted@,
                wanted@ == (match name {
                    Some(given) => given@,
                    None => DEFAULT_PRINTER@,
                }),
            decreases handles@.len() - i,
        {
            assert(handles@.contains(handles@[i as int]));
            match self.printers.get(&handles[i]) {
                Some(info) => {
                    if same_text(info.name.as_str(), wanted) {
                        proof {
                            assert forall|other: PrinterHandle| #[trigger]
                                printers.contains_key(other) && printers[other].name@
                                    == wanted@ implies handles@[i as int] <= other by {
                                assert(handles@.contains(other));
                                let j = choose|j: int|
                                    0 <= j < handles@.len() && handles@[j] == other;
                                assert(j >= i);
                            }
                        }
                        return Some(handles[i]);
                    }
                },
                None => {},
            }
            i += 1;
        }
        proof {
            assert forall|other: PrinterHandle| #[trigger]
                printers.contains_key(other) implies printers[other].name@ != wanted@ by {
                assert(handles@.contains(other));
                let j = choose|j: int| 0 <= j < handles@.len() && handles@[j] == other;
                assert(printers[handles@[j]].name@ != wanted@);
            }
        }
        None
    }

    /// Closing a printer always succeeds and changes nothing.
    pub fn close_printer(&mut self, _handle: PrinterHandle) -> (closed: bool)
        ensures
            closed,
            final(self)@ == old(self)@,
    {
        true
    }

    /// Starts a print job, which becomes the one that the printer works on.
    pub fn start_doc_printer(&mut self, printer_handle: PrinterHandle, doc_name: &str) -> (job_id:
        Option<u32>)
        requires
            old(self)@.next_job_id < u32::MAX,
        ensures
            job_id == Some(old(self)@.next_job_id),
            ({
                let id = old(self)@.next_job_id;
                let job = final(self)@.jobs[id];
                &&& final(self)@ == (Printing {
                    jobs: old(self)@.jobs.insert(id, job),
                    next_job_id: (id + 1) as u32,
                    active_jobs: old(self)@.active_jobs.insert(printer_handle, id),
                    ..old(self)@
                })
                &&& job.id == id
                &&& job.printer_handle == printer_handle
                &&& job.document_name@ == doc_name@
                &&& job.spool_data@ == Seq::<u8>::empty()
                &&& job.page_count == 0
                &&& job.status == PrintJobStatus::Spooling
            }),
            old(self)@.numbered() ==> final(self)@.numbered(),
    {
        let id: u32 = self.next_job_id;
        self.next_job_id = id + 1;
        self.jobs.insert(
            id,
            PrintJob {
                id,
                printer_handle,
                document_name: doc_name.to_owned(),
                spool_data: Vec::new(),
                page_count: 0,
                status: PrintJobStatus::Spooling,
                started: now(),
            },
        );
        self.active_jobs.insert(printer_handle, id);
        Some(id)
    }

    /// Finishes a print job: it is completed, no printer works on it any more,
    /// and its document is handed out. An unknown job gives nothing.
    pub fn end_doc_printer(&mut self, job_id: u32) -> (printed: Option<PrintedDocument>)
        ensures
            printed is Some <==> old(self)@.jobs.contains_key(job_id),
            printed is None ==> final(self)@ == old(self)@,
            old(self)@.numbered() ==> final(self)@.numbered(),
            printed matches Some(document) ==> {
                let job = old(self)@.jobs[job_id];
                &&& final(self)@ == (Printing {
                    jobs: old(self)@.jobs.insert(
                        job_id,
                        (PrintJob { status: PrintJobStatus::Completed, ..job }),
                    ),
                    active_jobs: old(self)@.active_jobs.remove_keys(
                        working_on(old(self)@.active_jobs, job_id),
                    ),
                    ..old(self)@
                })
                &&& document.file_name@ == output_name(job_id, job.document_name@)
                &&& document.pdf@ == pdf_file(
                    document_objects(
                        job.document_name@,
                        job.spool_data@,
                        pages_of(job.page_count),
                    ),
                )
            },
    {
        let job = match self.jobs.remove(&job_id) {
            Some(job) => job,
            None => {
                assert(self.jobs@ =~= old(self).jobs@);
                return None;
            },
        };
        let pdf: Vec<u8> = self.generate_pdf(
            job.spool_data.as_slice(),
            job.document_name.as_str(),
            job.page_count,
        );
        let file_name = output_file_name(job_id, job.document_name.as_str());
        self.jobs.insert(job_id, PrintJob { status: PrintJobStatus::Completed, ..job });
        assert(self.jobs@ =~= old(self).jobs@.insert(job_id, self.jobs@[job_id]));
        self.release_printers(job_id);
        Some(PrintedDocument { file_name, pdf })
    }

    /// No printer works on `job_id` any more.
    fn release_printers(&mut self, job_id: u32)
        ensures
            final(self)@ == (Printing {
                active_jobs: old(self)@.active_jobs.remove_keys(
                    working_on(old(self)@.active_jobs, job_id),
                ),
                ..old(self)@
            }),
    {
        let handles: Vec<u64> = sorted_keys(&self.active_jobs);
        let ghost before = self.active_jobs@;
        let ghost working = working_on(before, job_id);
        let mut i: usize = 0;
        while i < handles.len()
            invariant
                i <= handles@.len(),
                before == old(self).active_jobs@,
                lists_keys(handles@, before),
                self@ == (Printing { active_jobs: self.active_jobs@, ..old(self)@ }),
                forall|handle: u64| #[trigger]
                    self.active_jobs@.contains_key(handle) <==> before.contains_key(handle) && !(
                    before[handle] == job_id && exists|j: int| 0 <= j < i && handles@[j] == handle),
                forall|handle: u64| #[trigger]
                    self.active_jobs@.contains_key(handle) ==> self.active_jobs@[handle]
                        == before[handle],
            decreases handles@.len() - i,
        {
            let handle: u64 = handles[i];
            let ghost sooner = self.active_jobs@;
            proof {
                assert(handles@.contains(handle));
                assert(before.contains_key(handle));
                if sooner.contains_key(handle) {
                    assert(sooner[handle] == before[handle]);
                }
            }
            let done = match self.active_jobs.get(&handle) {
                Some(active) => *active == job_id,
                None => false,
            };
            if done {
                self.active_jobs.remove(&handle);
                assert(self.active_jobs@ == sooner.remove(handle));
            }
            i += 1;
        }
        proof {
            assert(self.active_jobs@ =~= before.remove_keys(working)) by {
                assert forall|handle: u64| #[trigger]
                    self.active_jobs@.dom().contains(handle) <==> before.remove_keys(
                    working,
                ).dom().contains(handle) by {
                    assert(self.active_jobs@.contains_key(handle)
                        == self.active_jobs@.dom().contains(handle));
                    assert(before.contains_key(handle) <==> handles@.contains(handle));
                }
                assert forall|handle: u64| #[trigger]
                    self.active_jobs@.dom().contains(handle) implies self.active_jobs@[handle]
                    == before.remove_keys(working)[handle] by {
                    assert(self.active_jobs@.contains_key(handle));
                }
            }
        }
    }

    /// The job that a printer works on.
    pub fn active_job_for_printer(&self, printer_handle: PrinterHandle) -> (job_id: Option<u32>)
        ensures
            job_id == (if self@.active_jobs.contains_key(printer_handle) {
                Some(self@.active_jobs[printer_handle])
            } else {
                None
            }),
    {
        match self.active_jobs.get(&printer_handle) {
            Some(job_id) => Some(*job_id),
            None => None,
        }
    }

    /// Adds a page to a job; false where there is no such job.
    pub fn start_page_printer(&mut self, job_id: u32) -> (started: bool)
        requires
            old(self)@.jobs.contains_key(job_id) ==> old(self)@.jobs[job_id].page_count < u32::MAX,
        ensures
            started == old(self)@.jobs.contains_key(job_id),
            !started ==> final(self)@ == old(self)@,
            started ==> final(self)@ == (Printing {
                jobs: old(self)@.jobs.insert(
                    job_id,
                    (PrintJob {
                        page_count: (old(self)@.jobs[job_id].page_count + 1) as u32,
                        ..old(self)@.jobs[job_id]
                    }),
                ),
                ..old(self)@
            }),
            old(self)@.numbered() ==> final(self)@.numbered(),
    {
        match self.jobs.remove(&job_id) {
            Some(job) => {
                let count: u32 = job.page_count + 1;
                self.jobs.insert(job_id, PrintJob { page_count: count, ..job });
                assert(self.jobs@ =~= old(self).jobs@.insert(job_id, self.jobs@[job_id]));
                true
            },
            None => {
                assert(self.jobs@ =~= old(self).jobs@);
                false
            },
        }
    }

    /// Ending a page always succeeds and changes nothing.
    pub fn end_page_printer(&mut self, _job_id: u32) -> (ended: bool)
        ensures
            ended,
            final(self)@ == old(self)@,
    {
        true
    }

    /// Appends bytes to what a job spools; false where there is no such job.
    pub fn write_printer(&mut self, job_id: u32, data: &[u8]) -> (written: bool)
        ensures
            written == old(self)@.jobs.contains_key(job_id),
            !written ==> final(self)@ == old(self)@,
            written ==> wrote(old(self)@, final(self)@, job_id, data@),
            old(self)@.numbered() ==> final(self)@.numbered(),
    {
        match self.jobs.remove(&job_id) {
            Some(job) => {
                let mut job = job;
                job.spool_data.extend_from_slice(data);
                self.jobs.insert(job_id, job);
                proof {
                    let is = self.jobs@[job_id];
                    assert(is == (PrintJob {
                        spool_data: is.spool_data,
                        ..old(self).jobs@[job_id]
                    }));
                    assert(self.jobs@ =~= old(self).jobs@.insert(job_id, is));
                    assert(is.spool_data@ =~= old(self).jobs@[job_id].spool_data@ + data@);
                    assert(wrote(old(self)@, self@, job_id, data@));
                }
                true
            },
            None => {
                assert(self.jobs@ =~= old(self).jobs@);
                false
            },
        }
    }

    /// A printer gives nothing to read.
    pub fn read_printer(&mut self, _job_id: u32, _buf: &mut [u8]) -> (count: Option<u32>)
        ensures
            count == Some(0u32),
            final(self)@ == old(self)@,
            final(_buf)@ == old(_buf)@,
    {
        Some(0)
    }

    /// All printers, by ascending handle.
    pub fn enum_printers(&self) -> (list: Vec<&PrinterInfo>)
        ensures
            lists_keys(keys_of(self@.printers), self@.printers),
            list@.len() == keys_of(self@.printers).len(),
            forall|i: int|
                0 <= i < list@.len() ==> *#[trigger] list@[i] == self@.printers[keys_of(
                    self@.printers,
                )[i]],
    {
        let handles: Vec<u64> = sorted_keys(&self.printers);
        let mut list: Vec<&PrinterInfo> = Vec::new();
        let mut i: usize = 0;
        while i < handles.len()
            invariant
                i <= handles@.len(),
                lists_keys(handles@, self.printers@),
                list@.len() == i,
                forall|j: int|
                    0 <= j < i ==> *#[trigger] list@[j] == self.printers@[handles@[j]],
            decreases handles@.len() - i,
        {
            assert(handles@.contains(handles@[i as int]));
            match self.printers.get(&handles[i]) {
                Some(info) => {
                    list.push(info);
                },
                None => {},
            }
            i += 1;
        }
        list
    }

    pub fn get_printer(&self, handle: PrinterHandle) -> (printer: Option<&PrinterInfo>)
        ensures
            match printer {
                Some(info) => self@.printers.contains_key(handle) && self@.printers[handle] == *info,
                None => !self@.printers.contains_key(handle),
            },
    {
        self.printers.get(&handle)
    }

    /// Changes a printer; false where there is no such printer.
    pub fn set_printer(&mut self, handle: PrinterHandle, info: PrinterInfo) -> (changed: bool)
        ensures
            changed == old(self)@.printers.contains_key(handle),
            final(self)@ == (if changed {
                Printing { printers: old(self)@.printers.insert(handle, info), ..old(self)@ }
            } else {
                old(self)@
            }),
            old(self)@.numbered() ==> final(self)@.numbered(),
    {
        if self.printers.contains_key(&handle) {
            self.printers.insert(handle, info);
            true
        } else {
            false
        }
    }

    /// Adds a printer and returns its handle.
    pub fn add_printer(&mut self, info: PrinterInfo) -> (handle: Option<PrinterHandle>)
        requires
            old(self)@.next_handle < u64::MAX,
        ensures
            handle == Some(old(self)@.next_handle),
            final(self)@ == (Printing {
                printers: old(self)@.printers.insert(old(self)@.next_handle, info),
                next_handle: (old(self)@.next_handle + 1) as u64,
                ..old(self)@
            }),
            old(self)@.numbered() ==> final(self)@.numbered(),
    {
        let handle: u64 = self.next_handle;
        self.next_handle = handle + 1;
        self.printers.insert(handle, info);
        Some(handle)
    }

    /// Removes a printer; false where there is no such printer.
    pub fn delete_printer(&mut self, handle: PrinterHandle) -> (deleted: bool)
        ensures
            deleted == old(self)@.printers.contains_key(handle),
            final(self)@ == (Printing {
                printers: old(self)@.printers.remove(handle),
                ..old(self)@
            }),
            old(self)@.numbered() ==> final(self)@.numbered(),
    {
        self.printers.remove(&handle).is_some()
    }

    /// Makes a device context for a printer and returns its handle.
    pub fn create_printer_dc(&mut self, printer_name: &str) -> (handle: Option<PrinterDcHandle>)
        requires
            old(self)@.next_dc_handle < u64::MAX,
        ensures
            handle == Some(old(self)@.next_dc_handle),
            ({
                let handle = old(self)@.next_dc_handle;
                let dc = final(self)@.printer_dcs[handle];
                &&& final(self)@ == (Printing {
                    printer_dcs: old(self)@.printer_dcs.insert(handle, dc),
                    next_dc_handle: (handle + 1) as u64,
                    ..old(self)@
                })
                &&& dc.handle == handle
                &&& dc.printer_name@ == printer_name@
                &&& dc.job_id is None
            }),
            old(self)@.numbered() ==> final(self)@.numbered(),
    {
        let handle: u64 = self.next_dc_handle;
        self.next_dc_handle = handle + 1;
        self.printer_dcs.insert(
            handle,
            PrinterDc { handle, printer_name: printer_name.to_owned(), job_id: None },
        );
        Some(handle)
    }

    pub fn get_printer_dc(&self, dc_handle: PrinterDcHandle) -> (dc: Option<&PrinterDc>)
        ensures
            match dc {
                Some(found) => self@.printer_dcs.contains_key(dc_handle)
                    && self@.printer_dcs[dc_handle] == *found,
                None => !self@.printer_dcs.contains_key(dc_handle),
            },
    {
        self.printer_dcs.get(&dc_handle)
    }

    /// A device context, to be changed in place.
    pub fn get_printer_dc_mut(&mut self, dc_handle: PrinterDcHandle) -> (dc: Option<&mut PrinterDc>)
        ensures
            match dc {
                Some(found) => {
                    &&& old(self)@.printer_dcs.contains_key(dc_handle)
                    &&& *found == old(self)@.printer_dcs[dc_handle]
                    &&& final(self)@ == (Printing {
                        printer_dcs: old(self)@.printer_dcs.insert(dc_handle, *final(found)),
                        ..old(self)@
                    })
                },
                None => {
                    &&& !old(self)@.printer_dcs.contains_key(dc_handle)
                    &&& final(self)@ == old(self)@
                },
            },
    {
        dc_in_place(&mut self.printer_dcs, dc_handle)
    }

    /// Gives up a device context; false where there is no such context.
    pub fn delete_printer_dc(&mut self, dc_handle: PrinterDcHandle) -> (deleted: bool)
        ensures
            deleted == old(self)@.printer_dcs.contains_key(dc_handle),
            final(self)@ == (Printing {
                printer_dcs: old(self)@.printer_dcs.remove(dc_handle),
                ..old(self)@
            }),
            old(self)@.numbered() ==> final(self)@.numbered(),
    {
        self.printer_dcs.remove(&dc_handle).is_some()
    }

    /// The document that a print job becomes.
    pub fn generate_pdf(&self, spool_data: &[u8], doc_name: &str, page_count: u32) -> (pdf: Vec<u8>)
        ensures
            pdf@ == pdf_file(document_objects(doc_name@, spool_data@, pages_of(page_count))),
    {
        generate_pdf(spool_data, doc_name, page_count)
    }
}

/// `BTreeMap::get_mut`: the value under a key, to be changed in place. What the
/// map holds afterwards under that key is what the value was changed to.
#[verifier::external_body]
fn dc_in_place(dcs: &mut BTreeMap<PrinterDcHandle, PrinterDc>, handle: PrinterDcHandle) -> (dc:
    Option<&mut PrinterDc>)
    ensures
        match dc {
            Some(found) => {
                &&& old(dcs)@.contains_key(handle)
                &&& *found == old(dcs)@[handle]
                &&& final(dcs)@ == old(dcs)@.insert(handle, *final(found))
            },
            None => !old(dcs)@.contains_key(handle) && final(dcs)@ == old(dcs)@,
        },
{
    dcs.get_mut(&handle)
}

impl Default for PrintSubsystem {
    fn default() -> (subsystem: Self)
        ensures
            is_fresh(subsystem@),
    {
        PrintSubsystem::new()
    }
}

/// The file of a document carries the number of its job and the document's
/// name, with an underscore in the place of each space and nothing else
/// changed.
pub proof fn lemma_output_name(job_id: u32, document: Seq<char>)
    ensures
        output_name(job_id, document) == "print_"@ + decimal(job_id as nat) + "_"@ + underscored(
            document,
        ) + ".pdf"@,
        underscored(document).len() == document.len(),
        forall|i: int|
            0 <= i < document.len() ==> #[trigger] underscored(document)[i] != ' ' && (document[i]
                == ' ' ==> underscored(document)[i] == '_') && (document[i] != ' ' ==> underscored(
                document,
            )[i] == document[i]),
{
}

} // verus!
