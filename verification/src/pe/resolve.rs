//! Imports matched with the exports that serve them.
use crate::bytes::pe_error;
use crate::error::{AppError, AppResult, ReasonCode};
use crate::names::NameMap;
use crate::pe::api_set::{resolved, ApiSetResolver};
use crate::pe::modules::{forwarded, parse_forwarder_string};
use crate::pe::types::{
    DelayLoadOutcome, DelayLoadOutcomeModel, DelayLoadResult, DelayLoadResultModel, ExportSymbol,
    ExportSymbolModel, ExportTarget, ExportTargetModel, ImportDescriptor, ImportDescriptorModel,
    ImportSymbol, ImportSymbolModel, ImportThunk, ImportThunkModel, ParsedPe, ResolvedImport, ResolvedImportModel,
};
use crate::text::{decimal, joined, noted, push_quoted, push_text, quoted, same_text};
use vstd::prelude::*;

verus! {

pub const STATUS_DLL_NOT_FOUND: u32 = 0xc000_0135;

pub const STATUS_ENTRYPOINT_NOT_FOUND: u32 = 0xc000_0139;

/// The exports of each module, by the module's name.
pub type ExportTables = NameMap<Vec<ExportSymbol>>;

/// The model of the export tables.
pub type Tables = Map<Seq<char>, Seq<ExportSymbolModel>>;

/// A symbol sought in a module.
pub type Sought = (Seq<char>, ImportSymbolModel);

/// The model of the export tables.
pub open spec fn tables_of(tables: Map<Seq<char>, Vec<ExportSymbol>>) -> Tables {
    tables.map_values(|exports: Vec<ExportSymbol>| exports.deep_view())
}

/// What one look at a module's exports gives.
#[verifier::ext_equal]
pub enum Lookup {
    MissingProvider,
    MissingSymbol,
    /// The export forwards by a text that names nothing.
    Malformed,
    /// Forwarders lead on without end.
    Cyclic,
    Found(ExportSymbolModel),
    Forwarded(Sought),
}

/// The export is what `symbol` asks for. A name is matched without its hint.
pub open spec fn serves(export: ExportSymbolModel, symbol: ImportSymbolModel) -> bool {
    match symbol {
        ImportSymbolModel::ByName { name, .. } => export.name == Some(name),
        ImportSymbolModel::ByOrdinal { ordinal } => export.ordinal == ordinal,
    }
}

/// The first export that is what `symbol` asks for.
pub open spec fn first_serving(exports: Seq<ExportSymbolModel>, symbol: ImportSymbolModel) -> Option<
    ExportSymbolModel,
>
    decreases exports.len(),
{
    if exports.len() == 0 {
        None
    } else if serves(exports[0], symbol) {
        Some(exports[0])
    } else {
        first_serving(exports.drop_first(), symbol)
    }
}

/// Where the export leads.
pub open spec fn followed(export: ExportSymbolModel, mappings: Map<Seq<char>, Seq<char>>) -> Lookup {
    match export.target {
        ExportTargetModel::Rva(_) => Lookup::Found(export),
        ExportTargetModel::Forwarder(text) => match forwarded(text) {
            None => Lookup::Malformed,
            Some((module, symbol)) => Lookup::Forwarded((resolved(mappings, module), symbol)),
        },
    }
}

/// One look at the exports of the module in which a symbol is sought.
pub open spec fn look(tables: Tables, mappings: Map<Seq<char>, Seq<char>>, sought: Sought) -> Lookup {
    if !tables.contains_key(sought.0) {
        Lookup::MissingProvider
    } else {
        match first_serving(tables[sought.0], sought.1) {
            None => Lookup::MissingSymbol,
            Some(export) => followed(export, mappings),
        }
    }
}

/// What is sought after `steps` forwarders.
pub open spec fn after_steps(
    tables: Tables,
    mappings: Map<Seq<char>, Seq<char>>,
    sought: Sought,
    steps: nat,
) -> Option<Sought>
    decreases steps,
{
    if steps == 0 {
        Some(sought)
    } else {
        match after_steps(tables, mappings, sought, (steps - 1) as nat) {
            None => None,
            Some(last) => match look(tables, mappings, last) {
                Lookup::Forwarded(next) => Some(next),
                _ => None,
            },
        }
    }
}

/// The search ends after `steps` forwarders.
pub open spec fn ends_after(
    tables: Tables,
    mappings: Map<Seq<char>, Seq<char>>,
    sought: Sought,
    steps: nat,
) -> bool {
    match after_steps(tables, mappings, sought, steps) {
        None => false,
        Some(last) => look(tables, mappings, last) !is Forwarded,
    }
}

/// What the search for a symbol gives in the end.
pub open spec fn found(tables: Tables, mappings: Map<Seq<char>, Seq<char>>, sought: Sought) -> Lookup {
    if exists|steps: nat| ends_after(tables, mappings, sought, steps) {
        let steps = choose|steps: nat| ends_after(tables, mappings, sought, steps);
        look(tables, mappings, after_steps(tables, mappings, sought, steps)->0)
    } else {
        Lookup::Cyclic
    }
}

proof fn lemma_nothing_after_end(
    tables: Tables,
    mappings: Map<Seq<char>, Seq<char>>,
    sought: Sought,
    end: nat,
    steps: nat,
)
    requires
        ends_after(tables, mappings, sought, end),
        steps > end,
    ensures
        after_steps(tables, mappings, sought, steps) is None,
    decreases steps,
{
    if steps - 1 > end {
        lemma_nothing_after_end(tables, mappings, sought, end, (steps - 1) as nat);
    }
}

/// The search can end in one way only.
pub proof fn lemma_one_end(
    tables: Tables,
    mappings: Map<Seq<char>, Seq<char>>,
    sought: Sought,
    steps: nat,
)
    requires
        ends_after(tables, mappings, sought, steps),
    ensures
        found(tables, mappings, sought) == look(
            tables,
            mappings,
            after_steps(tables, mappings, sought, steps)->0,
        ),
{
    let chosen = choose|n: nat| ends_after(tables, mappings, sought, n);
    if chosen < steps {
        lemma_nothing_after_end(tables, mappings, sought, chosen, steps);
    } else if steps < chosen {
        lemma_nothing_after_end(tables, mappings, sought, steps, chosen);
    }
}

proof fn lemma_repeats(
    tables: Tables,
    mappings: Map<Seq<char>, Seq<char>>,
    sought: Sought,
    first: nat,
    second: nat,
    more: nat,
)
    requires
        after_steps(tables, mappings, sought, first) == after_steps(
            tables,
            mappings,
            sought,
            second,
        ),
    ensures
        after_steps(tables, mappings, sought, first + more) == after_steps(
            tables,
            mappings,
            sought,
            second + more,
        ),
    decreases more,
{
    if more > 0 {
        lemma_repeats(tables, mappings, sought, first, second, (more - 1) as nat);
    }
}

proof fn lemma_prefix_there(
    tables: Tables,
    mappings: Map<Seq<char>, Seq<char>>,
    sought: Sought,
    early: nat,
    late: nat,
)
    requires
        after_steps(tables, mappings, sought, late) is Some,
        early <= late,
    ensures
        after_steps(tables, mappings, sought, early) is Some,
        early < late ==> !ends_after(tables, mappings, sought, early),
    decreases late - early,
{
    if early < late {
        if ends_after(tables, mappings, sought, early) {
            lemma_nothing_after_end(tables, mappings, sought, early, late);
        }
        lemma_prefix_there(tables, mappings, sought, early, (late - 1) as nat);
    }
}

/// A search that comes back to where it was never ends.
pub proof fn lemma_cycle(
    tables: Tables,
    mappings: Map<Seq<char>, Seq<char>>,
    sought: Sought,
    first: nat,
    second: nat,
)
    requires
        first < second,
        after_steps(tables, mappings, sought, first) is Some,
        after_steps(tables, mappings, sought, first) == after_steps(
            tables,
            mappings,
            sought,
            second,
        ),
    ensures
        found(tables, mappings, sought) == Lookup::Cyclic,
{
    assert forall|steps: nat| !ends_after(tables, mappings, sought, steps) by {
        lemma_never_ends(tables, mappings, sought, first, second, steps);
    }
}

proof fn lemma_never_ends(
    tables: Tables,
    mappings: Map<Seq<char>, Seq<char>>,
    sought: Sought,
    first: nat,
    second: nat,
    steps: nat,
)
    requires
        first < second,
        after_steps(tables, mappings, sought, first) is Some,
        after_steps(tables, mappings, sought, first) == after_steps(
            tables,
            mappings,
            sought,
            second,
        ),
    ensures
        !ends_after(tables, mappings, sought, steps),
    decreases steps,
{
    if steps < second {
        lemma_prefix_there(tables, mappings, sought, steps, second);
    } else {
        let more = (steps - second) as nat;
        lemma_repeats(tables, mappings, sought, first, second, more);
        lemma_never_ends(tables, mappings, sought, first, second, first + more);
    }
}

// ---------------------------------------------------------------------------
// Searching
// ---------------------------------------------------------------------------

/// Why a symbol was not found.
#[derive(Debug)]
pub enum ExportLookupFailure {
    MissingProvider(String),
    MissingSymbol(String),
    Parser(AppError),
}

/// The outcome of a search is the one that [`found`] says.
pub open spec fn lookup_agrees(
    outcome: Result<ExportSymbol, ExportLookupFailure>,
    expected: Lookup,
) -> bool {
    match outcome {
        Ok(export) => expected == Lookup::Found(export.deep_view()),
        Err(ExportLookupFailure::MissingProvider(_)) => expected == Lookup::MissingProvider,
        Err(ExportLookupFailure::MissingSymbol(_)) => expected == Lookup::MissingSymbol,
        Err(ExportLookupFailure::Parser(error)) => (expected == Lookup::Malformed || expected
            == Lookup::Cyclic) && error.code == ReasonCode::RcPeParseInvalid,
    }
}

/// A symbol and the module that it was looked for in.
pub open spec fn description(symbol: ImportSymbolModel, module: Seq<char>) -> Seq<char> {
    (match symbol {
        ImportSymbolModel::ByName { hint, name } => "ByName { hint: "@ + decimal(hint as nat)
            + ", name: "@ + seq!['"'] + quoted(name, name.len() as int) + seq!['"'],
        ImportSymbolModel::ByOrdinal { ordinal } => "ByOrdinal { ordinal: "@ + decimal(
            ordinal as nat,
        ),
    }) + " } from "@ + module
}

fn described(symbol: &ImportSymbol, module: &str) -> (text: String)
    ensures
        text@ == description(symbol.deep_view(), module@),
{
    let mut text: String = match symbol {
        ImportSymbol::ByName { hint, name } => {
            let mut text: String = noted("ByName { hint: ", *hint as u64, ", name: ");
            push_quoted(&mut text, name);
            text
        },
        ImportSymbol::ByOrdinal { ordinal } => {
            let text: String = noted("ByOrdinal { ordinal: ", *ordinal as u64, "");
            proof {
                reveal_strlit("");
            }
            assert(text@ =~= "ByOrdinal { ordinal: "@ + decimal(*ordinal as nat));
            text
        },
    };
    push_text(&mut text, " } from ");
    push_text(&mut text, module);
    text
}

fn serves_symbol(export: &ExportSymbol, symbol: &ImportSymbol) -> (served: bool)
    ensures
        served == serves(export.deep_view(), symbol.deep_view()),
{
    match symbol {
        ImportSymbol::ByName { name, .. } => match &export.name {
            None => false,
            Some(own) => same_text(own, name),
        },
        ImportSymbol::ByOrdinal { ordinal } => export.ordinal == *ordinal as u32,
    }
}

fn find_serving(exports: &Vec<ExportSymbol>, symbol: &ImportSymbol) -> (found: Option<ExportSymbol>)
    ensures
        found.deep_view() == first_serving(exports.deep_view(), symbol.deep_view()),
{
    let ghost all = exports.deep_view();
    let mut i: usize = 0;
    assert(all.skip(0) =~= all);
    while i < exports.len()
        invariant
            i <= exports.len(),
            all == exports.deep_view(),
            first_serving(all, symbol.deep_view()) == first_serving(
                all.skip(i as int),
                symbol.deep_view(),
            ),
        decreases exports.len() - i,
    {
        assert(all.skip(i as int)[0] == exports@[i as int].deep_view());
        assert(all.skip(i as int).drop_first() =~= all.skip(i + 1));
        if serves_symbol(&exports[i], symbol) {
            return Some(exports[i].duplicate());
        }
        i += 1;
    }
    None
}

fn same_symbol(a: &ImportSymbol, b: &ImportSymbol) -> (same: bool)
    ensures
        same == (a.deep_view() == b.deep_view()),
{
    match (a, b) {
        (
            ImportSymbol::ByName { hint: first, name: a },
            ImportSymbol::ByName { hint: second, name: b },
        ) => *first == *second && same_text(a, b),
        (
            ImportSymbol::ByOrdinal { ordinal: first },
            ImportSymbol::ByOrdinal { ordinal: second },
        ) => *first == *second,
        _ => false,
    }
}

fn was_visited(visited: &Vec<(String, ImportSymbol)>, module: &str, symbol: &ImportSymbol) -> (at:
    Option<usize>)
    ensures
        match at {
            Some(i) => i < visited.len() && visited@[i as int].0@ == module@
                && visited@[i as int].1.deep_view() == symbol.deep_view(),
            None => forall|i: int|
                0 <= i < visited.len() ==> (#[trigger] visited@[i]).0@ != module@
                    || visited@[i].1.deep_view() != symbol.deep_view(),
        },
{
    let mut i: usize = 0;
    while i < visited.len()
        invariant
            i <= visited.len(),
            forall|j: int|
                0 <= j < i ==> (#[trigger] visited@[j]).0@ != module@ || visited@[j].1.deep_view()
                    != symbol.deep_view(),
        decreases visited.len() - i,
    {
        if same_text(&visited[i].0, module) && same_symbol(&visited[i].1, symbol) {
            return Some(i);
        }
        i += 1;
    }
    None
}

/// Everything that some export of the tables forwards to.
spec fn forward_targets(tables: Tables, mappings: Map<Seq<char>, Seq<char>>) -> Set<Sought> {
    tables.dom().map(
        |module: Seq<char>|
            tables[module].to_set().map(
                |export: ExportSymbolModel| followed(export, mappings)->Forwarded_0,
            ),
    ).flatten()
}

proof fn lemma_forward_targets_finite(tables: Tables, mappings: Map<Seq<char>, Seq<char>>)
    requires
        tables.dom().finite(),
    ensures
        forward_targets(tables, mappings).finite(),
{
    let inner = |module: Seq<char>|
        tables[module].to_set().map(
            |export: ExportSymbolModel| followed(export, mappings)->Forwarded_0,
        );
    tables.dom().lemma_map_finite(inner);
    assert forall|s: Set<Sought>| tables.dom().map(inner).contains(s) implies #[trigger] s.finite() by {
        let module = choose|module: Seq<char>| tables.dom().contains(module) && inner(module) == s;
        vstd::seq_lib::seq_to_set_is_finite(tables[module]);
        tables[module].to_set().lemma_map_finite(
            |export: ExportSymbolModel| followed(export, mappings)->Forwarded_0,
        );
    }
    tables.dom().map(inner).lemma_flatten_finite();
}

proof fn lemma_first_serving(exports: Seq<ExportSymbolModel>, symbol: ImportSymbolModel)
    ensures
        first_serving(exports, symbol) matches Some(export) ==> exports.contains(export) && serves(
            export,
            symbol,
        ),
    decreases exports.len(),
{
    if exports.len() > 0 {
        if serves(exports[0], symbol) {
            assert(exports.contains(exports[0]));
        } else {
            lemma_first_serving(exports.drop_first(), symbol);
            if let Some(export) = first_serving(exports.drop_first(), symbol) {
                let i = choose|i: int|
                    0 <= i < exports.drop_first().len() && exports.drop_first()[i] == export;
                assert(exports[i + 1] == export);
            }
        }
    }
}

proof fn lemma_target_counted(
    tables: Tables,
    mappings: Map<Seq<char>, Seq<char>>,
    sought: Sought,
    next: Sought,
)
    requires
        look(tables, mappings, sought) == Lookup::Forwarded(next),
    ensures
        forward_targets(tables, mappings).contains(next),
{
    let inner = |module: Seq<char>|
        tables[module].to_set().map(
            |export: ExportSymbolModel| followed(export, mappings)->Forwarded_0,
        );
    let export = first_serving(tables[sought.0], sought.1)->0;
    lemma_first_serving(tables[sought.0], sought.1);
    assert(tables[sought.0].to_set().contains(export));
    assert(inner(sought.0).contains(next));
    assert(tables.dom().map(inner).contains(inner(sought.0)));
}

/// Follows forwarders from a symbol of `current_module` to the export that
/// serves it.
pub fn lookup_export_symbol(
    symbol: &ImportSymbol,
    current_module: &str,
    export_tables: &ExportTables,
    resolver: &ApiSetResolver,
) -> (outcome: Result<ExportSymbol, ExportLookupFailure>)
    ensures
        lookup_agrees(
            outcome,
            found(tables_of(export_tables@), resolver@, (current_module@, symbol.deep_view())),
        ),
{
    let ghost tables = tables_of(export_tables@);
    let ghost start = (current_module@, symbol.deep_view());
    let ghost targets = forward_targets(tables, resolver@);
    let mut visited: Vec<(String, ImportSymbol)> = Vec::new();
    let mut module: String = current_module.to_owned();
    let mut wanted: ImportSymbol = symbol.duplicate();
    let ghost mut steps: nat = 0;
    let ghost mut seen: Seq<Sought> = Seq::empty();
    proof {
        export_tables.lemma_finite();
        assert(tables.dom() =~= export_tables@.dom());
        lemma_forward_targets_finite(tables, resolver@);
    }
    loop
        invariant
            tables == tables_of(export_tables@),
            start == (current_module@, symbol.deep_view()),
            targets == forward_targets(tables, resolver@),
            targets.finite(),
            steps == visited.len(),
            seen.len() == steps,
            seen.no_duplicates(),
            forall|i: int|
                0 <= i < steps ==> #[trigger] seen[i] == (
                    visited@[i].0@,
                    visited@[i].1.deep_view(),
                ),
            forall|i: int|
                0 <= i < steps ==> after_steps(tables, resolver@, start, i as nat) == Some(
                    #[trigger] seen[i],
                ),
            forall|i: int| 1 <= i < steps ==> targets.contains(#[trigger] seen[i]),
            steps >= 1 ==> targets.contains((module@, wanted.deep_view())),
            after_steps(tables, resolver@, start, steps) == Some((module@, wanted.deep_view())),
            steps <= targets.len() + 1,
        decreases targets.len() + 1 - steps,
    {
        let ghost here = (module@, wanted.deep_view());
        match was_visited(&visited, &module, &wanted) {
            Some(i) => {
                proof {
                    assert(seen[i as int] == here);
                    lemma_cycle(tables, resolver@, start, i as nat, steps);
                }
                return Err(
                    ExportLookupFailure::Parser(pe_error("export forwarder cycle detected")),
                );
            },
            None => {},
        }
        proof {
            assert forall|i: int| 0 <= i < steps implies #[trigger] seen[i] != here by {
                assert(seen[i] == (visited@[i].0@, visited@[i].1.deep_view()));
            }
        }
        let exports: &Vec<ExportSymbol> = match export_tables.get(&module) {
            None => {
                proof {
                    assert(ends_after(tables, resolver@, start, steps));
                    lemma_one_end(tables, resolver@, start, steps);
                }
                return Err(ExportLookupFailure::MissingProvider(module));
            },
            Some(exports) => exports,
        };
        assert(tables[module@] == exports.deep_view());
        let export: ExportSymbol = match find_serving(exports, &wanted) {
            None => {
                proof {
                    assert(ends_after(tables, resolver@, start, steps));
                    lemma_one_end(tables, resolver@, start, steps);
                }
                return Err(ExportLookupFailure::MissingSymbol(described(&wanted, &module)));
            },
            Some(export) => export,
        };
        let (next_module, next_symbol): (String, ImportSymbol) = match &export.target {
            ExportTarget::Rva(_) => {
                proof {
                    assert(ends_after(tables, resolver@, start, steps));
                    lemma_one_end(tables, resolver@, start, steps);
                }
                return Ok(export);
            },
            ExportTarget::Forwarder(text) => match parse_forwarder_string(text) {
                Err(error) => {
                    proof {
                        assert(ends_after(tables, resolver@, start, steps));
                        lemma_one_end(tables, resolver@, start, steps);
                    }
                    return Err(ExportLookupFailure::Parser(error));
                },
                Ok((next_module, next_symbol)) => (resolver.resolve(&next_module), next_symbol),
            },
        };
        proof {
            let next = (next_module@, next_symbol.deep_view());
            assert(look(tables, resolver@, here) == Lookup::Forwarded(next));
            lemma_target_counted(tables, resolver@, here, next);
            let longer = seen.push(here);
            assert(longer.no_duplicates());
            let tail = longer.drop_first();
            assert(tail.no_duplicates());
            tail.unique_seq_to_set();
            assert(tail.to_set().subset_of(targets)) by {
                assert forall|s: Sought| tail.to_set().contains(s) implies targets.contains(s) by {
                    let i = choose|i: int| 0 <= i < tail.len() && tail[i] == s;
                    assert(longer[i + 1] == s);
                    if i + 1 < steps {
                        assert(seen[i + 1] == s);
                    }
                }
            }
            vstd::set_lib::lemma_len_subset(tail.to_set(), targets);
            assert(after_steps(tables, resolver@, start, steps + 1) == Some(next));
        }
        visited.push((module, wanted));
        module = next_module;
        wanted = next_symbol;
        proof {
            seen = seen.push(here);
            steps = steps + 1;
        }
    }
}

// ---------------------------------------------------------------------------
// Resolving the imports of an image
// ---------------------------------------------------------------------------

/// `outcome` is the list, or an error with the reason, that is expected.
pub open spec fn resolves<T: DeepView>(
    outcome: AppResult<Vec<T>>,
    expected: Result<Seq<T::V>, ReasonCode>,
) -> bool {
    match (outcome, expected) {
        (Ok(list), Ok(models)) => list.deep_view() == models,
        (Err(error), Err(code)) => error.code == code,
        _ => false,
    }
}

/// `head` in front of the list in `tail`.
pub open spec fn joined_to<A>(head: Seq<A>, tail: Result<Seq<A>, ReasonCode>) -> Result<
    Seq<A>,
    ReasonCode,
> {
    match tail {
        Err(code) => Err(code),
        Ok(rest) => Ok(head + rest),
    }
}

/// The imports of one library from thunk `index` on, each with its export.
pub open spec fn resolved_thunks(
    tables: Tables,
    mappings: Map<Seq<char>, Seq<char>>,
    descriptor: ImportDescriptorModel,
    index: int,
) -> Result<Seq<ResolvedImportModel>, ReasonCode>
    decreases descriptor.imports.len() - index,
{
    if index >= descriptor.imports.len() {
        Ok(Seq::empty())
    } else {
        let thunk = descriptor.imports[index];
        let module = resolved(mappings, descriptor.dll_name);
        match found(tables, mappings, (module, thunk.symbol)) {
            Lookup::Found(export) => joined_to(
                seq![
                    ResolvedImportModel {
                        requested_module: descriptor.dll_name,
                        resolved_module: module,
                        symbol: thunk.symbol,
                        iat_rva: thunk.iat_rva,
                        export,
                    },
                ],
                resolved_thunks(tables, mappings, descriptor, index + 1),
            ),
            Lookup::MissingProvider | Lookup::MissingSymbol => Err(ReasonCode::RcImportMissing),
            _ => Err(ReasonCode::RcPeParseInvalid),
        }
    }
}

/// The imports of the libraries from `index` on, each with its export. A
/// library without exports is missing even where nothing is taken from it.
pub open spec fn resolved_libraries(
    tables: Tables,
    mappings: Map<Seq<char>, Seq<char>>,
    descriptors: Seq<ImportDescriptorModel>,
    index: int,
) -> Result<Seq<ResolvedImportModel>, ReasonCode>
    decreases descriptors.len() - index,
{
    if index >= descriptors.len() {
        Ok(Seq::empty())
    } else if !tables.contains_key(resolved(mappings, descriptors[index].dll_name)) {
        Err(ReasonCode::RcImportMissing)
    } else {
        match resolved_thunks(tables, mappings, descriptors[index], 0) {
            Err(code) => Err(code),
            Ok(here) => joined_to(
                here,
                resolved_libraries(tables, mappings, descriptors, index + 1),
            ),
        }
    }
}

/// The imports of an image, those loaded on first use last.
pub open spec fn resolved_image(
    tables: Tables,
    mappings: Map<Seq<char>, Seq<char>>,
    imports: Seq<ImportDescriptorModel>,
    delay_imports: Seq<ImportDescriptorModel>,
) -> Result<Seq<ResolvedImportModel>, ReasonCode> {
    match resolved_libraries(tables, mappings, imports, 0) {
        Err(code) => Err(code),
        Ok(here) => joined_to(here, resolved_libraries(tables, mappings, delay_imports, 0)),
    }
}

/// What libraries are asked for, in order: each symbol with its slot and the
/// name of its library.
pub open spec fn asked_for(descriptors: Seq<ImportDescriptorModel>) -> Seq<
    (Seq<char>, ImportThunkModel),
>
    decreases descriptors.len(),
{
    if descriptors.len() == 0 {
        Seq::empty()
    } else {
        asked_for(descriptors.drop_last()) + descriptors.last().imports.map_values(
            |thunk: ImportThunkModel| (descriptors.last().dll_name, thunk),
        )
    }
}

/// `import` answers what was asked for: its symbol and its slot are those of
/// the thunk, and its export is what the search in the module that stands for
/// the library gives.
pub open spec fn answers(
    tables: Tables,
    mappings: Map<Seq<char>, Seq<char>>,
    import: ResolvedImportModel,
    asked: (Seq<char>, ImportThunkModel),
) -> bool {
    &&& import.requested_module == asked.0
    &&& import.resolved_module == resolved(mappings, asked.0)
    &&& import.symbol == asked.1.symbol
    &&& import.iat_rva == asked.1.iat_rva
    &&& found(tables, mappings, (resolved(mappings, asked.0), asked.1.symbol)) == Lookup::Found(
        import.export,
    )
}

proof fn lemma_thunks_answered(
    tables: Tables,
    mappings: Map<Seq<char>, Seq<char>>,
    descriptor: ImportDescriptorModel,
    index: int,
)
    requires
        0 <= index <= descriptor.imports.len(),
    ensures
        resolved_thunks(tables, mappings, descriptor, index) is Ok <==> (forall|i: int|
            index <= i < descriptor.imports.len() ==> found(
                tables,
                mappings,
                (resolved(mappings, descriptor.dll_name), (#[trigger] descriptor.imports[i]).symbol),
            ) is Found),
        resolved_thunks(tables, mappings, descriptor, index) matches Ok(list) ==> {
            &&& list.len() == descriptor.imports.len() - index
            &&& forall|i: int|
                0 <= i < list.len() ==> answers(
                    tables,
                    mappings,
                    #[trigger] list[i],
                    (descriptor.dll_name, descriptor.imports[index + i]),
                )
        },
    decreases descriptor.imports.len() - index,
{
    if index < descriptor.imports.len() {
        lemma_thunks_answered(tables, mappings, descriptor, index + 1);
        let wanted = (resolved(mappings, descriptor.dll_name), descriptor.imports[index].symbol);
        if found(tables, mappings, wanted) is Found {
            if let Ok(rest) = resolved_thunks(tables, mappings, descriptor, index + 1) {
                let list = resolved_thunks(tables, mappings, descriptor, index)->Ok_0;
                assert forall|i: int| 0 <= i < list.len() implies answers(
                    tables,
                    mappings,
                    #[trigger] list[i],
                    (descriptor.dll_name, descriptor.imports[index + i]),
                ) by {
                    if i > 0 {
                        assert(list[i] == rest[i - 1]);
                    }
                }
            }
        }
    }
}

proof fn lemma_asked_split(descriptors: Seq<ImportDescriptorModel>, index: int)
    requires
        0 <= index < descriptors.len(),
    ensures
        asked_for(descriptors.skip(index)) == descriptors[index].imports.map_values(
            |thunk: ImportThunkModel| (descriptors[index].dll_name, thunk),
        ) + asked_for(descriptors.skip(index + 1)),
    decreases descriptors.len(),
{
    let here = descriptors.skip(index);
    let next = descriptors.skip(index + 1);
    if index + 1 < descriptors.len() {
        let front = descriptors.drop_last();
        lemma_asked_split(front, index);
        assert(front.skip(index) =~= here.drop_last());
        assert(front.skip(index + 1) =~= next.drop_last());
        assert(here.last() == next.last());
        assert(asked_for(here) =~= descriptors[index].imports.map_values(
            |thunk: ImportThunkModel| (descriptors[index].dll_name, thunk),
        ) + asked_for(next));
    } else {
        assert(here.drop_last() =~= Seq::<ImportDescriptorModel>::empty());
        assert(next =~= Seq::<ImportDescriptorModel>::empty());
        assert(asked_for(here) =~= descriptors[index].imports.map_values(
            |thunk: ImportThunkModel| (descriptors[index].dll_name, thunk),
        ) + asked_for(next));
    }
}

proof fn lemma_libraries_answered(
    tables: Tables,
    mappings: Map<Seq<char>, Seq<char>>,
    descriptors: Seq<ImportDescriptorModel>,
    index: int,
)
    requires
        0 <= index <= descriptors.len(),
    ensures
        resolved_libraries(tables, mappings, descriptors, index) is Ok <==> {
            &&& forall|i: int|
                index <= i < descriptors.len() ==> tables.contains_key(
                    resolved(mappings, (#[trigger] descriptors[i]).dll_name),
                )
            &&& forall|k: int|
                0 <= k < asked_for(descriptors.skip(index)).len() ==> found(
                    tables,
                    mappings,
                    sought_for(mappings, #[trigger] asked_for(descriptors.skip(index))[k]),
                ) is Found
        },
        resolved_libraries(tables, mappings, descriptors, index) matches Ok(list) ==> {
            &&& list.len() == asked_for(descriptors.skip(index)).len()
            &&& forall|i: int|
                0 <= i < list.len() ==> answers(
                    tables,
                    mappings,
                    #[trigger] list[i],
                    asked_for(descriptors.skip(index))[i],
                )
        },
    decreases descriptors.len() - index,
{
    let asked = asked_for(descriptors.skip(index));
    if index < descriptors.len() {
        lemma_libraries_answered(tables, mappings, descriptors, index + 1);
        let descriptor = descriptors[index];
        lemma_thunks_answered(tables, mappings, descriptor, 0);
        lemma_asked_split(descriptors, index);
        let own = descriptor.imports.map_values(
            |thunk: ImportThunkModel| (descriptor.dll_name, thunk),
        );
        let others = asked_for(descriptors.skip(index + 1));
        assert(asked == own + others);
        let all_found = forall|k: int|
            0 <= k < asked.len() ==> found(
                tables,
                mappings,
                sought_for(mappings, #[trigger] asked[k]),
            ) is Found;
        if all_found {
            assert forall|i: int| 0 <= i < descriptor.imports.len() implies found(
                tables,
                mappings,
                (resolved(mappings, descriptor.dll_name), (#[trigger] descriptor.imports[i]).symbol),
            ) is Found by {
                assert(asked[i] == own[i]);
            }
            assert forall|k: int| 0 <= k < others.len() implies found(
                tables,
                mappings,
                sought_for(mappings, #[trigger] others[k]),
            ) is Found by {
                assert(asked[own.len() + k] == others[k]);
            }
        } else {
            let k = choose|k: int|
                0 <= k < asked.len() && !(found(
                    tables,
                    mappings,
                    sought_for(mappings, #[trigger] asked[k]),
                ) is Found);
            if k < own.len() {
                assert(asked[k] == own[k]);
                assert(!(found(
                    tables,
                    mappings,
                    (resolved(mappings, descriptor.dll_name), descriptor.imports[k].symbol),
                ) is Found));
            } else {
                assert(asked[k] == others[k - own.len()]);
            }
        }
        if let Ok(list) = resolved_libraries(tables, mappings, descriptors, index) {
            let here = resolved_thunks(tables, mappings, descriptor, 0)->Ok_0;
            let rest = resolved_libraries(tables, mappings, descriptors, index + 1)->Ok_0;
            assert(list == here + rest);
            assert forall|i: int| 0 <= i < list.len() implies answers(
                tables,
                mappings,
                #[trigger] list[i],
                asked[i],
            ) by {
                if i < here.len() {
                    assert(list[i] == here[i]);
                    assert(asked[i] == own[i]);
                } else {
                    assert(list[i] == rest[i - here.len()]);
                    assert(asked[i] == others[i - here.len()]);
                }
            }
        }
    } else {
        assert(descriptors.skip(index).len() == 0);
    }
}

/// What is sought for something that was asked for.
pub open spec fn sought_for(
    mappings: Map<Seq<char>, Seq<char>>,
    asked: (Seq<char>, ImportThunkModel),
) -> Sought {
    (resolved(mappings, asked.0), asked.1.symbol)
}

/// An image can be resolved exactly where the module behind each of its
/// libraries is known and each symbol asked for is found. Then there is one
/// import for each symbol of the imports and then of the delayed imports, in
/// their order, and it carries the symbol and the slot of that very thunk with
/// the export that the search for it gives; so slots that differ stay apart.
pub proof fn lemma_every_slot_answered(
    tables: Tables,
    mappings: Map<Seq<char>, Seq<char>>,
    imports: Seq<ImportDescriptorModel>,
    delay_imports: Seq<ImportDescriptorModel>,
)
    ensures
        resolved_image(tables, mappings, imports, delay_imports) is Ok <==> {
            &&& forall|i: int|
                0 <= i < imports.len() ==> tables.contains_key(
                    resolved(mappings, (#[trigger] imports[i]).dll_name),
                )
            &&& forall|i: int|
                0 <= i < delay_imports.len() ==> tables.contains_key(
                    resolved(mappings, (#[trigger] delay_imports[i]).dll_name),
                )
            &&& forall|k: int|
                0 <= k < asked_for(imports).len() ==> found(
                    tables,
                    mappings,
                    sought_for(mappings, #[trigger] asked_for(imports)[k]),
                ) is Found
            &&& forall|k: int|
                0 <= k < asked_for(delay_imports).len() ==> found(
                    tables,
                    mappings,
                    sought_for(mappings, #[trigger] asked_for(delay_imports)[k]),
                ) is Found
        },
        resolved_image(tables, mappings, imports, delay_imports) matches Ok(list) ==> {
            let first = asked_for(imports);
            let second = asked_for(delay_imports);
            &&& list.len() == first.len() + second.len()
            &&& forall|i: int|
                0 <= i < list.len() ==> answers(
                    tables,
                    mappings,
                    #[trigger] list[i],
                    if i < first.len() {
                        first[i]
                    } else {
                        second[i - first.len()]
                    },
                )
        },
{
    lemma_libraries_answered(tables, mappings, imports, 0);
    lemma_libraries_answered(tables, mappings, delay_imports, 0);
    assert(imports.skip(0) =~= imports);
    assert(delay_imports.skip(0) =~= delay_imports);
}

/// What a search finds has an address of its own, and is an export of a known
/// module that carries the name or the ordinal that was last asked for. A
/// symbol whose first export has an address is found right there.
pub proof fn lemma_found_has_address(
    tables: Tables,
    mappings: Map<Seq<char>, Seq<char>>,
    sought: Sought,
)
    ensures
        found(tables, mappings, sought) matches Lookup::Found(export) ==> export.target is Rva
            && exists|module: Seq<char>| #[trigger]
            tables.contains_key(module) && tables[module].contains(export),
        tables.contains_key(sought.0) && (exists|i: int|
            is_first_serving(tables[sought.0], sought.1, i)) ==> {
            let i = choose|i: int| is_first_serving(tables[sought.0], sought.1, i);
            let export = tables[sought.0][i];
            export.target is Rva ==> found(tables, mappings, sought) == Lookup::Found(export)
        },
        !tables.contains_key(sought.0) ==> found(tables, mappings, sought)
            == Lookup::MissingProvider,
        tables.contains_key(sought.0) && (forall|i: int|
            0 <= i < tables[sought.0].len() ==> !serves(
                #[trigger] tables[sought.0][i],
                sought.1,
            )) ==> found(tables, mappings, sought) == Lookup::MissingSymbol,
{
    if exists|steps: nat| ends_after(tables, mappings, sought, steps) {
        let steps = choose|steps: nat| ends_after(tables, mappings, sought, steps);
        let last = after_steps(tables, mappings, sought, steps)->0;
        if let Lookup::Found(export) = look(tables, mappings, last) {
            lemma_first_serving(tables[last.0], last.1);
        }
    }
    assert(after_steps(tables, mappings, sought, 0) == Some(sought));
    if tables.contains_key(sought.0) {
        let exports = tables[sought.0];
        if exists|i: int| is_first_serving(exports, sought.1, i) {
            let i = choose|i: int| is_first_serving(exports, sought.1, i);
            lemma_first_serving_at(exports, sought.1, i);
            if exports[i].target is Rva {
                assert(ends_after(tables, mappings, sought, 0));
                lemma_one_end(tables, mappings, sought, 0);
            }
        } else {
            lemma_first_serving(exports, sought.1);
        }
        if forall|i: int| 0 <= i < exports.len() ==> !serves(#[trigger] exports[i], sought.1) {
            if let Some(export) = first_serving(exports, sought.1) {
                lemma_first_serving(exports, sought.1);
                let i = choose|i: int| 0 <= i < exports.len() && exports[i] == export;
                assert(!serves(exports[i], sought.1));
            }
            assert(ends_after(tables, mappings, sought, 0));
            lemma_one_end(tables, mappings, sought, 0);
        }
    } else {
        assert(ends_after(tables, mappings, sought, 0));
        lemma_one_end(tables, mappings, sought, 0);
    }
}

/// Export `i` is the first that carries the name or the ordinal asked for.
pub open spec fn is_first_serving(
    exports: Seq<ExportSymbolModel>,
    symbol: ImportSymbolModel,
    i: int,
) -> bool {
    let carries = |export: ExportSymbolModel|
        match symbol {
            ImportSymbolModel::ByName { name, .. } => export.name == Some(name),
            ImportSymbolModel::ByOrdinal { ordinal } => export.ordinal as int == ordinal as int,
        };
    &&& 0 <= i < exports.len()
    &&& carries(exports[i])
    &&& forall|j: int| 0 <= j < i ==> !carries(#[trigger] exports[j])
}

proof fn lemma_first_serving_at(
    exports: Seq<ExportSymbolModel>,
    symbol: ImportSymbolModel,
    i: int,
)
    requires
        is_first_serving(exports, symbol, i),
    ensures
        first_serving(exports, symbol) == Some(exports[i]),
    decreases i,
{
    if i > 0 {
        assert(!serves(exports[0], symbol));
        let rest = exports.drop_first();
        assert forall|j: int| 0 <= j < i - 1 implies rest[j] == #[trigger] exports[j + 1] by {}
        assert(is_first_serving(rest, symbol, i - 1));
        lemma_first_serving_at(rest, symbol, i - 1);
    }
}

/// Follows forwarders to the export that serves a symbol.
pub fn resolve_export_symbol(
    symbol: &ImportSymbol,
    current_module: &str,
    export_tables: &ExportTables,
    resolver: &ApiSetResolver,
) -> (outcome: AppResult<ExportSymbol>)
    ensures
        match found(
            tables_of(export_tables@),
            resolver@,
            (current_module@, symbol.deep_view()),
        ) {
            Lookup::Found(export) => outcome matches Ok(value) && value.deep_view() == export,
            Lookup::MissingProvider | Lookup::MissingSymbol => outcome matches Err(error)
                && error.code == ReasonCode::RcImportMissing,
            _ => outcome matches Err(error) && error.code == ReasonCode::RcPeParseInvalid,
        },
{
    match lookup_export_symbol(symbol, current_module, export_tables, resolver) {
        Ok(export) => Ok(export),
        Err(ExportLookupFailure::MissingProvider(module)) => Err(
            AppError::new(
                ReasonCode::RcImportMissing,
                &joined("missing forwarded import provider ", &module),
            ),
        ),
        Err(ExportLookupFailure::MissingSymbol(description)) => Err(
            AppError::new(ReasonCode::RcImportMissing, &joined("missing import ", &description)),
        ),
        Err(ExportLookupFailure::Parser(error)) => Err(error),
    }
}

proof fn lemma_joined_push<A>(head: Seq<A>, element: A, tail: Result<Seq<A>, ReasonCode>)
    ensures
        joined_to(head, joined_to(seq![element], tail)) == joined_to(head.push(element), tail),
{
    if let Ok(rest) = tail {
        assert(head + (seq![element] + rest) =~= head.push(element) + rest);
    }
}

proof fn lemma_joined_two<A>(head: Seq<A>, middle: Seq<A>, tail: Result<Seq<A>, ReasonCode>)
    ensures
        joined_to(head, joined_to(middle, tail)) == joined_to(head + middle, tail),
{
    if let Ok(rest) = tail {
        assert(head + (middle + rest) =~= (head + middle) + rest);
    }
}

fn append_thunks(
    descriptor: &ImportDescriptor,
    module: &String,
    export_tables: &ExportTables,
    resolver: &ApiSetResolver,
    list: &mut Vec<ResolvedImport>,
) -> (outcome: AppResult<()>)
    requires
        module@ == resolved(resolver@, descriptor.dll_name@),
    ensures
        match (
            outcome,
            resolved_thunks(tables_of(export_tables@), resolver@, descriptor.deep_view(), 0),
        ) {
            (Ok(()), Ok(here)) => final(list).deep_view() == old(list).deep_view() + here,
            (Err(error), Err(code)) => error.code == code,
            _ => false,
        },
{
    let ghost tables = tables_of(export_tables@);
    let ghost start = list.deep_view();
    let ghost model = descriptor.deep_view();
    let ghost whole = joined_to(start, resolved_thunks(tables, resolver@, model, 0));
    let mut i: usize = 0;
    while i < descriptor.imports.len()
        invariant
            i <= descriptor.imports.len(),
            model == descriptor.deep_view(),
            tables == tables_of(export_tables@),
            module@ == resolved(resolver@, descriptor.dll_name@),
            start == old(list).deep_view(),
            whole == joined_to(start, resolved_thunks(tables, resolver@, model, 0)),
            whole == joined_to(
                list.deep_view(),
                resolved_thunks(tables, resolver@, model, i as int),
            ),
        decreases descriptor.imports.len() - i,
    {
        let thunk: &ImportThunk = &descriptor.imports[i];
        assert(model.imports[i as int] == thunk.deep_view());
        match resolve_export_symbol(&thunk.symbol, module, export_tables, resolver) {
            Err(error) => {
                return Err(error);
            },
            Ok(export) => {
                let entry = ResolvedImport {
                    requested_module: descriptor.dll_name.clone(),
                    resolved_module: module.clone(),
                    symbol: thunk.symbol.duplicate(),
                    iat_rva: thunk.iat_rva,
                    export,
                };
                let ghost before = list.deep_view();
                proof {
                    lemma_joined_push(
                        before,
                        entry.deep_view(),
                        resolved_thunks(tables, resolver@, model, i + 1),
                    );
                }
                list.push(entry);
                assert(list.deep_view() =~= before.push(entry.deep_view()));
            },
        }
        i += 1;
    }
    assert(list.deep_view() + Seq::<ResolvedImportModel>::empty() =~= list.deep_view());
    Ok(())
}

fn append_libraries(
    descriptors: &Vec<ImportDescriptor>,
    export_tables: &ExportTables,
    resolver: &ApiSetResolver,
    list: &mut Vec<ResolvedImport>,
) -> (outcome: AppResult<()>)
    ensures
        match (
            outcome,
            resolved_libraries(
                tables_of(export_tables@),
                resolver@,
                descriptors.deep_view(),
                0,
            ),
        ) {
            (Ok(()), Ok(here)) => final(list).deep_view() == old(list).deep_view() + here,
            (Err(error), Err(code)) => error.code == code,
            _ => false,
        },
{
    let ghost tables = tables_of(export_tables@);
    let ghost start = list.deep_view();
    let ghost models = descriptors.deep_view();
    let ghost whole = joined_to(start, resolved_libraries(tables, resolver@, models, 0));
    let mut i: usize = 0;
    while i < descriptors.len()
        invariant
            i <= descriptors.len(),
            models == descriptors.deep_view(),
            tables == tables_of(export_tables@),
            start == old(list).deep_view(),
            whole == joined_to(start, resolved_libraries(tables, resolver@, models, 0)),
            whole == joined_to(
                list.deep_view(),
                resolved_libraries(tables, resolver@, models, i as int),
            ),
        decreases descriptors.len() - i,
    {
        let descriptor: &ImportDescriptor = &descriptors[i];
        assert(models[i as int] == descriptor.deep_view());
        let module: String = resolver.resolve(&descriptor.dll_name);
        if !export_tables.contains_key(&module) {
            return Err(
                AppError::new(
                    ReasonCode::RcImportMissing,
                    &joined("missing import provider ", &module),
                ),
            );
        }
        let ghost before = list.deep_view();
        match append_thunks(descriptor, &module, export_tables, resolver, list) {
            Err(error) => {
                return Err(error);
            },
            Ok(()) => {
                proof {
                    let here = resolved_thunks(tables, resolver@, models[i as int], 0)->Ok_0;
                    lemma_joined_two(
                        before,
                        here,
                        resolved_libraries(tables, resolver@, models, i + 1),
                    );
                }
            },
        }
        i += 1;
    }
    assert(list.deep_view() + Seq::<ResolvedImportModel>::empty() =~= list.deep_view());
    Ok(())
}

/// The imports of an image, each with the export that serves it.
pub fn resolve_imports(image: &ParsedPe, export_tables: &ExportTables, resolver: &ApiSetResolver) -> (outcome:
    AppResult<Vec<ResolvedImport>>)
    ensures
        resolves(
            outcome,
            resolved_image(
                tables_of(export_tables@),
                resolver@,
                image.deep_view().imports,
                image.deep_view().delay_imports,
            ),
        ),
{
    let mut list: Vec<ResolvedImport> = Vec::new();
    assert(list.deep_view() =~= Seq::<ResolvedImportModel>::empty());
    match append_libraries(&image.imports, export_tables, resolver, &mut list) {
        Err(error) => {
            return Err(error);
        },
        Ok(()) => {},
    }
    proof {
        let here = resolved_libraries(
            tables_of(export_tables@),
            resolver@,
            image.imports.deep_view(),
            0,
        )->Ok_0;
        assert(Seq::<ResolvedImportModel>::empty() + here =~= here);
    }
    match append_libraries(&image.delay_imports, export_tables, resolver, &mut list) {
        Err(error) => Err(error),
        Ok(()) => Ok(list),
    }
}

/// What a delay-loaded import gives on first use. A malformed or endless
/// forwarder is an error of the image.
pub open spec fn delayed(result: Lookup) -> Option<DelayLoadOutcomeModel> {
    match result {
        Lookup::Found(export) => Some(DelayLoadOutcomeModel::Resolved(export)),
        Lookup::MissingProvider => Some(
            DelayLoadOutcomeModel::StructuredException { code: STATUS_DLL_NOT_FOUND },
        ),
        Lookup::MissingSymbol => Some(
            DelayLoadOutcomeModel::StructuredException { code: STATUS_ENTRYPOINT_NOT_FOUND },
        ),
        _ => None,
    }
}

/// What the delay-loaded imports of one library give, from thunk `index` on.
pub open spec fn delayed_thunks(
    tables: Tables,
    mappings: Map<Seq<char>, Seq<char>>,
    descriptor: ImportDescriptorModel,
    index: int,
) -> Result<Seq<DelayLoadResultModel>, ReasonCode>
    decreases descriptor.imports.len() - index,
{
    if index >= descriptor.imports.len() {
        Ok(Seq::empty())
    } else {
        let thunk = descriptor.imports[index];
        let module = resolved(mappings, descriptor.dll_name);
        match delayed(found(tables, mappings, (module, thunk.symbol))) {
            None => Err(ReasonCode::RcPeParseInvalid),
            Some(outcome) => joined_to(
                seq![
                    DelayLoadResultModel {
                        requested_module: descriptor.dll_name,
                        resolved_module: module,
                        symbol: thunk.symbol,
                        iat_rva: thunk.iat_rva,
                        outcome,
                    },
                ],
                delayed_thunks(tables, mappings, descriptor, index + 1),
            ),
        }
    }
}

/// What the delay-loaded imports give, from library `index` on.
pub open spec fn delayed_libraries(
    tables: Tables,
    mappings: Map<Seq<char>, Seq<char>>,
    descriptors: Seq<ImportDescriptorModel>,
    index: int,
) -> Result<Seq<DelayLoadResultModel>, ReasonCode>
    decreases descriptors.len() - index,
{
    if index >= descriptors.len() {
        Ok(Seq::empty())
    } else {
        match delayed_thunks(tables, mappings, descriptors[index], 0) {
            Err(code) => Err(code),
            Ok(here) => joined_to(here, delayed_libraries(tables, mappings, descriptors, index + 1)),
        }
    }
}

fn append_delayed(
    descriptor: &ImportDescriptor,
    export_tables: &ExportTables,
    resolver: &ApiSetResolver,
    list: &mut Vec<DelayLoadResult>,
) -> (outcome: AppResult<()>)
    ensures
        match (
            outcome,
            delayed_thunks(tables_of(export_tables@), resolver@, descriptor.deep_view(), 0),
        ) {
            (Ok(()), Ok(here)) => final(list).deep_view() == old(list).deep_view() + here,
            (Err(error), Err(code)) => error.code == code,
            _ => false,
        },
{
    let ghost tables = tables_of(export_tables@);
    let ghost start = list.deep_view();
    let ghost model = descriptor.deep_view();
    let ghost whole = joined_to(start, delayed_thunks(tables, resolver@, model, 0));
    let module: String = resolver.resolve(&descriptor.dll_name);
    let mut i: usize = 0;
    while i < descriptor.imports.len()
        invariant
            i <= descriptor.imports.len(),
            model == descriptor.deep_view(),
            tables == tables_of(export_tables@),
            module@ == resolved(resolver@, descriptor.dll_name@),
            start == old(list).deep_view(),
            whole == joined_to(start, delayed_thunks(tables, resolver@, model, 0)),
            whole == joined_to(
                list.deep_view(),
                delayed_thunks(tables, resolver@, model, i as int),
            ),
        decreases descriptor.imports.len() - i,
    {
        let thunk: &ImportThunk = &descriptor.imports[i];
        assert(model.imports[i as int] == thunk.deep_view());
        let result: DelayLoadOutcome = match lookup_export_symbol(
            &thunk.symbol,
            &module,
            export_tables,
            resolver,
        ) {
            Ok(export) => DelayLoadOutcome::Resolved(export),
            Err(ExportLookupFailure::MissingProvider(_)) => DelayLoadOutcome::StructuredException {
                code: STATUS_DLL_NOT_FOUND,
            },
            Err(ExportLookupFailure::MissingSymbol(_)) => DelayLoadOutcome::StructuredException {
                code: STATUS_ENTRYPOINT_NOT_FOUND,
            },
            Err(ExportLookupFailure::Parser(error)) => {
                return Err(error);
            },
        };
        let entry = DelayLoadResult {
            requested_module: descriptor.dll_name.clone(),
            resolved_module: module.clone(),
            symbol: thunk.symbol.duplicate(),
            iat_rva: thunk.iat_rva,
            outcome: result,
        };
        let ghost before = list.deep_view();
        proof {
            lemma_joined_push(
                before,
                entry.deep_view(),
                delayed_thunks(tables, resolver@, model, i + 1),
            );
        }
        list.push(entry);
        assert(list.deep_view() =~= before.push(entry.deep_view()));
        i += 1;
    }
    assert(list.deep_view() + Seq::<DelayLoadResultModel>::empty() =~= list.deep_view());
    Ok(())
}

/// What each delay-loaded import of an image gives on first use.
pub fn resolve_delay_imports(
    image: &ParsedPe,
    export_tables: &ExportTables,
    resolver: &ApiSetResolver,
) -> (outcome: AppResult<Vec<DelayLoadResult>>)
    ensures
        resolves(
            outcome,
            delayed_libraries(
                tables_of(export_tables@),
                resolver@,
                image.deep_view().delay_imports,
                0,
            ),
        ),
{
    let ghost tables = tables_of(export_tables@);
    let ghost models = image.delay_imports.deep_view();
    let ghost whole = delayed_libraries(tables, resolver@, models, 0);
    let mut list: Vec<DelayLoadResult> = Vec::new();
    let mut i: usize = 0;
    proof {
        assert(list.deep_view() =~= Seq::<DelayLoadResultModel>::empty());
        if let Ok(rest) = whole {
            assert(Seq::<DelayLoadResultModel>::empty() + rest =~= rest);
        }
    }
    while i < image.delay_imports.len()
        invariant
            i <= image.delay_imports.len(),
            models == image.delay_imports.deep_view(),
            tables == tables_of(export_tables@),
            whole == delayed_libraries(tables, resolver@, models, 0),
            whole == joined_to(
                list.deep_view(),
                delayed_libraries(tables, resolver@, models, i as int),
            ),
        decreases image.delay_imports.len() - i,
    {
        assert(models[i as int] == image.delay_imports@[i as int].deep_view());
        let ghost before = list.deep_view();
        match append_delayed(&image.delay_imports[i], export_tables, resolver, &mut list) {
            Err(error) => {
                return Err(error);
            },
            Ok(()) => {
                proof {
                    let here = delayed_thunks(tables, resolver@, models[i as int], 0)->Ok_0;
                    lemma_joined_two(
                        before,
                        here,
                        delayed_libraries(tables, resolver@, models, i + 1),
                    );
                }
            },
        }
        i += 1;
    }
    assert(list.deep_view() + Seq::<DelayLoadResultModel>::empty() =~= list.deep_view());
    Ok(list)
}

proof fn lemma_step_first(
    tables: Tables,
    mappings: Map<Seq<char>, Seq<char>>,
    sought: Sought,
    next: Sought,
    steps: nat,
)
    requires
        look(tables, mappings, sought) == Lookup::Forwarded(next),
    ensures
        after_steps(tables, mappings, sought, steps + 1) == after_steps(
            tables,
            mappings,
            next,
            steps,
        ),
    decreases steps,
{
    if steps > 0 {
        lemma_step_first(tables, mappings, sought, next, (steps - 1) as nat);
    } else {
        assert(after_steps(tables, mappings, sought, 0) == Some(sought));
    }
}

/// Searching for a symbol whose export forwards gives what searching for the
/// symbol that it forwards to gives: the text names a library, which stands for
/// a module, and a symbol of it. A text that names nothing is malformed.
pub proof fn lemma_forwarder_followed(
    tables: Tables,
    mappings: Map<Seq<char>, Seq<char>>,
    sought: Sought,
    i: int,
    text: Seq<char>,
)
    requires
        tables.contains_key(sought.0),
        is_first_serving(tables[sought.0], sought.1, i),
        tables[sought.0][i].target == ExportTargetModel::Forwarder(text),
    ensures
        match forwarded(text) {
            Some((library, symbol)) => found(tables, mappings, sought) == found(
                tables,
                mappings,
                (resolved(mappings, library), symbol),
            ),
            None => found(tables, mappings, sought) == Lookup::Malformed,
        },
{
    lemma_first_serving_at(tables[sought.0], sought.1, i);
    assert(after_steps(tables, mappings, sought, 0) == Some(sought));
    match forwarded(text) {
        None => {
            assert(ends_after(tables, mappings, sought, 0));
            lemma_one_end(tables, mappings, sought, 0);
        },
        Some((library, symbol)) => {
            let next = (resolved(mappings, library), symbol);
            if exists|steps: nat| ends_after(tables, mappings, next, steps) {
                let steps = choose|steps: nat| ends_after(tables, mappings, next, steps);
                lemma_step_first(tables, mappings, sought, next, steps);
                assert(ends_after(tables, mappings, sought, steps + 1));
                lemma_one_end(tables, mappings, sought, steps + 1);
                lemma_one_end(tables, mappings, next, steps);
            } else {
                assert forall|steps: nat| !ends_after(tables, mappings, sought, steps) by {
                    if steps > 0 {
                        lemma_step_first(tables, mappings, sought, next, (steps - 1) as nat);
                        assert(!ends_after(tables, mappings, next, (steps - 1) as nat));
                    }
                }
            }
        },
    }
}

/// `result` tells what became of what was asked for: its symbol and its slot
/// are those of the thunk, and its outcome is the export that the search gives,
/// or the exception for a module or for a symbol that is not there.
pub open spec fn tells(
    tables: Tables,
    mappings: Map<Seq<char>, Seq<char>>,
    result: DelayLoadResultModel,
    asked: (Seq<char>, ImportThunkModel),
) -> bool {
    &&& result.requested_module == asked.0
    &&& result.resolved_module == resolved(mappings, asked.0)
    &&& result.symbol == asked.1.symbol
    &&& result.iat_rva == asked.1.iat_rva
    &&& match found(tables, mappings, sought_for(mappings, asked)) {
        Lookup::Found(export) => result.outcome == DelayLoadOutcomeModel::Resolved(export),
        Lookup::MissingProvider => result.outcome matches DelayLoadOutcomeModel::StructuredException {
            code,
        } && code == 0xc000_0135,
        Lookup::MissingSymbol => result.outcome matches DelayLoadOutcomeModel::StructuredException {
            code,
        } && code == 0xc000_0139,
        _ => false,
    }
}

proof fn lemma_delayed_told(
    tables: Tables,
    mappings: Map<Seq<char>, Seq<char>>,
    descriptor: ImportDescriptorModel,
    index: int,
)
    requires
        0 <= index <= descriptor.imports.len(),
    ensures
        delayed_thunks(tables, mappings, descriptor, index) matches Ok(list) ==> {
            &&& list.len() == descriptor.imports.len() - index
            &&& forall|i: int|
                0 <= i < list.len() ==> tells(
                    tables,
                    mappings,
                    #[trigger] list[i],
                    (descriptor.dll_name, descriptor.imports[index + i]),
                )
        },
    decreases descriptor.imports.len() - index,
{
    if index < descriptor.imports.len() {
        lemma_delayed_told(tables, mappings, descriptor, index + 1);
        if let Ok(list) = delayed_thunks(tables, mappings, descriptor, index) {
            let rest = delayed_thunks(tables, mappings, descriptor, index + 1)->Ok_0;
            assert forall|i: int| 0 <= i < list.len() implies tells(
                tables,
                mappings,
                #[trigger] list[i],
                (descriptor.dll_name, descriptor.imports[index + i]),
            ) by {
                if i > 0 {
                    assert(list[i] == rest[i - 1]);
                }
            }
        }
    }
}

/// Where the delayed imports of an image can be told, there is one result for
/// each symbol that is asked for, in their order, and it tells what became of
/// that very one.
pub proof fn lemma_every_delayed_told(
    tables: Tables,
    mappings: Map<Seq<char>, Seq<char>>,
    descriptors: Seq<ImportDescriptorModel>,
)
    ensures
        delayed_libraries(tables, mappings, descriptors, 0) matches Ok(list) ==> {
            &&& list.len() == asked_for(descriptors).len()
            &&& forall|i: int|
                0 <= i < list.len() ==> tells(
                    tables,
                    mappings,
                    #[trigger] list[i],
                    asked_for(descriptors)[i],
                )
        },
{
    lemma_delayed_from(tables, mappings, descriptors, 0);
    assert(descriptors.skip(0) =~= descriptors);
}

proof fn lemma_delayed_from(
    tables: Tables,
    mappings: Map<Seq<char>, Seq<char>>,
    descriptors: Seq<ImportDescriptorModel>,
    index: int,
)
    requires
        0 <= index <= descriptors.len(),
    ensures
        delayed_libraries(tables, mappings, descriptors, index) matches Ok(list) ==> {
            &&& list.len() == asked_for(descriptors.skip(index)).len()
            &&& forall|i: int|
                0 <= i < list.len() ==> tells(
                    tables,
                    mappings,
                    #[trigger] list[i],
                    asked_for(descriptors.skip(index))[i],
                )
        },
    decreases descriptors.len() - index,
{
    if index < descriptors.len() {
        lemma_delayed_from(tables, mappings, descriptors, index + 1);
        let descriptor = descriptors[index];
        lemma_delayed_told(tables, mappings, descriptor, 0);
        lemma_asked_split(descriptors, index);
        let own = descriptor.imports.map_values(
            |thunk: ImportThunkModel| (descriptor.dll_name, thunk),
        );
        let others = asked_for(descriptors.skip(index + 1));
        let asked = asked_for(descriptors.skip(index));
        if let Ok(list) = delayed_libraries(tables, mappings, descriptors, index) {
            let here = delayed_thunks(tables, mappings, descriptor, 0)->Ok_0;
            let rest = delayed_libraries(tables, mappings, descriptors, index + 1)->Ok_0;
            assert(list == here + rest);
            assert forall|i: int| 0 <= i < list.len() implies tells(
                tables,
                mappings,
                #[trigger] list[i],
                asked[i],
            ) by {
                if i < here.len() {
                    assert(list[i] == here[i]);
                    assert(asked[i] == own[i]);
                } else {
                    assert(list[i] == rest[i - here.len()]);
                    assert(asked[i] == others[i - here.len()]);
                }
            }
        }
    } else {
        assert(descriptors.skip(index).len() == 0);
    }
}

/// A symbol that is asked for by name is an export of just that name, whatever
/// the hint; one that is asked for by ordinal is the export with that ordinal,
/// whatever its name.
pub proof fn lemma_what_is_asked(
    export: ExportSymbolModel,
    hint: u16,
    name: Seq<char>,
    ordinal: u16,
)
    ensures
        serves(export, ImportSymbolModel::ByName { hint, name }) <==> export.name == Some(
            name,
        ),
        serves(export, ImportSymbolModel::ByOrdinal { ordinal }) <==> export.ordinal == ordinal,
{
}

/// A module that is not there is missing, and a symbol that none of the module's
/// exports is, is missing in it.
pub proof fn lemma_what_is_missing(
    tables: Tables,
    mappings: Map<Seq<char>, Seq<char>>,
    sought: Sought,
)
    ensures
        !tables.contains_key(sought.0) ==> found(tables, mappings, sought)
            == Lookup::MissingProvider,
        tables.contains_key(sought.0) && (forall|i: int|
            0 <= i < tables[sought.0].len() ==> !serves(
                #[trigger] tables[sought.0][i],
                sought.1,
            )) ==> found(tables, mappings, sought) == Lookup::MissingSymbol,
{
    assert(after_steps(tables, mappings, sought, 0) == Some(sought));
    if !tables.contains_key(sought.0) {
        assert(ends_after(tables, mappings, sought, 0));
        lemma_one_end(tables, mappings, sought, 0);
    } else if forall|i: int|
        0 <= i < tables[sought.0].len() ==> !serves(#[trigger] tables[sought.0][i], sought.1) {
        lemma_none_serves(tables[sought.0], sought.1);
        assert(ends_after(tables, mappings, sought, 0));
        lemma_one_end(tables, mappings, sought, 0);
    }
}

proof fn lemma_none_serves(exports: Seq<ExportSymbolModel>, symbol: ImportSymbolModel)
    requires
        forall|i: int| 0 <= i < exports.len() ==> !serves(#[trigger] exports[i], symbol),
    ensures
        first_serving(exports, symbol) is None,
    decreases exports.len(),
{
    if exports.len() > 0 {
        let rest = exports.drop_first();
        assert forall|i: int| 0 <= i < rest.len() implies !serves(#[trigger] rest[i], symbol) by {
            assert(rest[i] == exports[i + 1]);
        }
        lemma_none_serves(rest, symbol);
    }
}

} // verus!
