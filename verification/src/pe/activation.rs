//! Activation contexts: the side-by-side assemblies that a program asks for.
use crate::order::{lemma_filtered, lemma_sorted_by, ordered_by, place_by, sorted_by, Keyed};
use crate::pe::sxs_section;
use crate::pe::types::{
    copy_of_text, ActivationBinding, ActivationBindingModel, ActivationContext,
    ActivationContextModel, ActivationContextPlan, ActivationContextPlanModel, AssemblyIdentity,
    AssemblyIdentityModel, ManifestInfo, ManifestInfoModel,
};
use crate::text::{
    begins_with, chars_of, contains_text, ends_with, has_part, has_prefix, has_suffix, lower,
    lower_text, lowercase_of, push_text, same_text, stands_at, string_of, to_lower,
};
use std::collections::BTreeMap;
use vstd::prelude::*;

verus! {

// ---------------------------------------------------------------------------
// The plan
// ---------------------------------------------------------------------------

/// The text, or a star where there is none.
pub open spec fn text_or_star(text: Option<Seq<char>>) -> Seq<char> {
    match text {
        Some(inner) => inner,
        None => "*"@,
    }
}

/// The key by which an assembly is activated: its name in lower case, its
/// version, architecture and public key token, between bars.
pub open spec fn key_text(identity: AssemblyIdentityModel) -> Seq<char> {
    lower(identity.name) + "|"@ + text_or_star(identity.version) + "|"@ + text_or_star(
        identity.processor_architecture,
    ) + "|"@ + text_or_star(identity.public_key_token)
}

fn push_text_or_star(text: &mut String, part: &Option<String>)
    ensures
        final(text)@ == old(text)@ + text_or_star(part.deep_view()),
{
    match part {
        Some(inner) => push_text(text, inner),
        None => push_text(text, "*"),
    }
}

/// The key by which an assembly is activated.
pub fn activation_key(identity: &AssemblyIdentity) -> (key: String)
    ensures
        key@ == key_text(identity.deep_view()),
{
    let mut key: String = to_lower(&identity.name);
    push_text(&mut key, "|");
    push_text_or_star(&mut key, &identity.version);
    push_text(&mut key, "|");
    push_text_or_star(&mut key, &identity.processor_architecture);
    push_text(&mut key, "|");
    push_text_or_star(&mut key, &identity.public_key_token);
    key
}

/// The libraries that stand for a runtime assembly.
pub open spec fn runtime_libraries(name: Seq<char>) -> Seq<Seq<char>> {
    if has_part(lower(name), ".crt"@) {
        seq!["concrt140.dll"@, "msvcp140.dll"@, "vcruntime140.dll"@, "vcruntime140_1.dll"@]
    } else if has_part(lower(name), ".mfc"@) {
        seq!["mfc140u.dll"@, "mfcm140u.dll"@]
    } else if has_part(lower(name), ".openmp"@) {
        seq!["vcomp140.dll"@]
    } else {
        Seq::empty()
    }
}

/// The libraries that stand for a runtime assembly.
pub fn vc_runtime_dlls(identity: &AssemblyIdentity) -> (dlls: Vec<String>)
    ensures
        dlls.deep_view() == runtime_libraries(identity.deep_view().name),
{
    let name: String = to_lower(&identity.name);
    let mut dlls: Vec<String> = Vec::new();
    if contains_text(&name, ".crt") {
        dlls.push("concrt140.dll".to_owned());
        dlls.push("msvcp140.dll".to_owned());
        dlls.push("vcruntime140.dll".to_owned());
        dlls.push("vcruntime140_1.dll".to_owned());
    } else if contains_text(&name, ".mfc") {
        dlls.push("mfc140u.dll".to_owned());
        dlls.push("mfcm140u.dll".to_owned());
    } else if contains_text(&name, ".openmp") {
        dlls.push("vcomp140.dll".to_owned());
    }
    assert(dlls.deep_view() =~= runtime_libraries(identity.deep_view().name));
    dlls
}

/// The assembly is one of the Visual C++ runtime.
pub open spec fn is_runtime(identity: AssemblyIdentityModel) -> bool {
    begins_with(identity.name, "Microsoft.VC"@)
}

/// The libraries and the key of an assembly.
pub open spec fn binding_of(identity: AssemblyIdentityModel) -> ActivationBindingModel {
    ActivationBindingModel {
        identity,
        activation_key: key_text(identity),
        dlls: runtime_libraries(identity.name),
    }
}

impl Keyed for ActivationBinding {
    open spec fn key_of(model: ActivationBindingModel) -> Seq<char> {
        model.activation_key
    }

    fn key(&self) -> (key: &str) {
        self.activation_key.as_str()
    }
}

/// The plan for a manifest: its assemblies, those of the runtime, and the
/// bindings of these in the order of their keys.
pub open spec fn plan_for(manifest: ManifestInfoModel) -> ActivationContextPlanModel {
    let runtime = manifest.assemblies.filter(|identity: AssemblyIdentityModel| is_runtime(identity));
    ActivationContextPlanModel {
        assemblies: manifest.assemblies,
        vc_runtime_assemblies: runtime,
        vc_runtime_bindings: sorted_by(
            runtime.map_values(|identity: AssemblyIdentityModel| binding_of(identity)),
            |model: ActivationBindingModel| ActivationBinding::key_of(model),
        ),
    }
}

/// Builds the plan for a manifest.
pub fn build_activation_context(manifest: &ManifestInfo) -> (plan: ActivationContextPlan)
    ensures
        plan.deep_view() == plan_for(manifest.deep_view()),
{
    let ghost all = manifest.deep_view().assemblies;
    let ghost runtime = |identity: AssemblyIdentityModel| is_runtime(identity);
    let ghost bind = |identity: AssemblyIdentityModel| binding_of(identity);
    let ghost key = |model: ActivationBindingModel| ActivationBinding::key_of(model);
    let mut assemblies: Vec<AssemblyIdentity> = Vec::new();
    let mut chosen: Vec<AssemblyIdentity> = Vec::new();
    let mut bindings: Vec<ActivationBinding> = Vec::new();
    let mut i: usize = 0;
    proof {
        reveal(Seq::filter);
        assert(all.take(0).filter(runtime) =~= Seq::empty());
        assert(chosen.deep_view() =~= all.take(0).filter(runtime));
        assert(assemblies.deep_view() =~= all.take(0));
        assert(chosen.deep_view().map_values(bind) =~= Seq::empty());
        assert(bindings.deep_view() =~= sorted_by(chosen.deep_view().map_values(bind), key));
    }
    while i < manifest.assemblies.len()
        invariant
            i <= manifest.assemblies.len(),
            all == manifest.deep_view().assemblies,
            runtime == (|identity: AssemblyIdentityModel| is_runtime(identity)),
            bind == (|identity: AssemblyIdentityModel| binding_of(identity)),
            key == (|model: ActivationBindingModel| ActivationBinding::key_of(model)),
            assemblies.deep_view() == all.take(i as int),
            chosen.deep_view() == all.take(i as int).filter(runtime),
            bindings.deep_view() == sorted_by(chosen.deep_view().map_values(bind), key),
        decreases manifest.assemblies.len() - i,
    {
        let identity: &AssemblyIdentity = &manifest.assemblies[i];
        let ghost model = identity.deep_view();
        let ghost before = chosen.deep_view();
        proof {
            assert(all[i as int] == model);
            assert(all.take(i + 1).drop_last() =~= all.take(i as int));
            reveal(Seq::filter);
        }
        assemblies.push(identity.duplicate());
        assert(assemblies.deep_view() =~= all.take(i + 1));
        if has_prefix(&identity.name, "Microsoft.VC") {
            let binding = ActivationBinding {
                identity: identity.duplicate(),
                activation_key: activation_key(identity),
                dlls: vc_runtime_dlls(identity),
            };
            assert(binding.deep_view() == bind(model));
            place_by(&mut bindings, binding);
            chosen.push(identity.duplicate());
            proof {
                assert(chosen.deep_view() =~= before.push(model));
                let mapped = chosen.deep_view().map_values(bind);
                assert(mapped.last() == bind(model));
                assert(mapped.drop_last() =~= before.map_values(bind));
            }
        }
        i += 1;
    }
    assert(all.take(i as int) =~= all);
    ActivationContextPlan {
        assemblies,
        vc_runtime_assemblies: chosen,
        vc_runtime_bindings: bindings,
    }
}

// ---------------------------------------------------------------------------
// Searching the sections
// ---------------------------------------------------------------------------

/// What a search of an activation context finds.
#[derive(Debug, Clone, PartialEq, Eq)]
pub struct ActCtxSectionResult {
    /// The section that was searched.
    pub section_id: u32,
    /// The assembly that matched.
    pub assembly_identity: Option<AssemblyIdentity>,
    /// The path of the library to load, for a redirected library.
    pub dll_path: Option<String>,
    /// The activation context that holds the match.
    pub context_handle: u64,
    /// The directory of the assembly, where it is known.
    pub assembly_directory: Option<String>,
}

/// The model of [`ActCtxSectionResult`].
#[verifier::ext_equal]
pub struct ActCtxSectionResultModel {
    pub section_id: u32,
    pub assembly_identity: Option<AssemblyIdentityModel>,
    pub dll_path: Option<Seq<char>>,
    pub context_handle: u64,
    pub assembly_directory: Option<Seq<char>>,
}

impl DeepView for ActCtxSectionResult {
    type V = ActCtxSectionResultModel;

    open spec fn deep_view(&self) -> ActCtxSectionResultModel {
        ActCtxSectionResultModel {
            section_id: self.section_id,
            assembly_identity: self.assembly_identity.deep_view(),
            dll_path: self.dll_path.deep_view(),
            context_handle: self.context_handle,
            assembly_directory: self.assembly_directory.deep_view(),
        }
    }
}

/// Known assemblies and the libraries that each provides.
pub open spec fn assembly_libraries() -> Seq<(Seq<char>, Seq<Seq<char>>)> {
    seq![
        ("Microsoft.VC80.CRT"@, seq!["msvcp80.dll"@, "msvcr80.dll"@, "msvcm80.dll"@]),
        ("Microsoft.VC80.MFC"@, seq!["mfc80.dll"@, "mfc80u.dll"@, "mfcm80.dll"@, "mfcm80u.dll"@]),
        ("Microsoft.VC90.CRT"@, seq!["msvcp90.dll"@, "msvcr90.dll"@, "msvcm90.dll"@]),
        ("Microsoft.VC90.MFC"@, seq!["mfc90.dll"@, "mfc90u.dll"@, "mfcm90.dll"@, "mfcm90u.dll"@]),
        ("Microsoft.VC100.CRT"@, seq!["msvcp100.dll"@, "msvcr100.dll"@]),
        ("Microsoft.VC100.MFC"@, seq!["mfc100.dll"@, "mfc100u.dll"@, "mfcm100.dll"@, "mfcm100u.dll"@]),
        ("Microsoft.VC110.CRT"@, seq!["msvcp110.dll"@, "msvcr110.dll"@, "vccorlib110.dll"@]),
        ("Microsoft.VC110.MFC"@, seq!["mfc110.dll"@, "mfc110u.dll"@, "mfcm110.dll"@, "mfcm110u.dll"@]),
        ("Microsoft.VC120.CRT"@, seq!["msvcp120.dll"@, "msvcr120.dll"@, "vccorlib120.dll"@]),
        ("Microsoft.VC120.MFC"@, seq!["mfc120.dll"@, "mfc120u.dll"@, "mfcm120.dll"@, "mfcm120u.dll"@]),
        (
            "Microsoft.VC140.CRT"@,
            seq![
                "msvcp140.dll"@,
                "vcruntime140.dll"@,
                "vcruntime140_1.dll"@,
                "concrt140.dll"@,
                "vccorlib140.dll"@,
            ],
        ),
        ("Microsoft.VC140.MFC"@, seq!["mfc140.dll"@, "mfc140u.dll"@, "mfcm140.dll"@, "mfcm140u.dll"@]),
        ("Microsoft.Windows.Common-Controls"@, seq!["comctl32.dll"@]),
    ]
}

/// Known assemblies and the libraries that each provides.
pub fn known_sxs_assembly_dlls() -> (rows: Vec<(&'static str, Vec<&'static str>)>)
    ensures
        rows@.len() == assembly_libraries().len(),
        forall|i: int|
            0 <= i < rows@.len() ==> (#[trigger] rows@[i]).0@ == assembly_libraries()[i].0
                && rows@[i].1.deep_view() == assembly_libraries()[i].1,
{
    let mut rows: Vec<(&'static str, Vec<&'static str>)> = Vec::new();
    rows.push(("Microsoft.VC80.CRT", vec!["msvcp80.dll", "msvcr80.dll", "msvcm80.dll"]));
    rows.push(("Microsoft.VC80.MFC", vec!["mfc80.dll", "mfc80u.dll", "mfcm80.dll", "mfcm80u.dll"]));
    rows.push(("Microsoft.VC90.CRT", vec!["msvcp90.dll", "msvcr90.dll", "msvcm90.dll"]));
    rows.push(("Microsoft.VC90.MFC", vec!["mfc90.dll", "mfc90u.dll", "mfcm90.dll", "mfcm90u.dll"]));
    rows.push(("Microsoft.VC100.CRT", vec!["msvcp100.dll", "msvcr100.dll"]));
    rows.push(("Microsoft.VC100.MFC", vec!["mfc100.dll", "mfc100u.dll", "mfcm100.dll", "mfcm100u.dll"]));
    rows.push(("Microsoft.VC110.CRT", vec!["msvcp110.dll", "msvcr110.dll", "vccorlib110.dll"]));
    rows.push(("Microsoft.VC110.MFC", vec!["mfc110.dll", "mfc110u.dll", "mfcm110.dll", "mfcm110u.dll"]));
    rows.push(("Microsoft.VC120.CRT", vec!["msvcp120.dll", "msvcr120.dll", "vccorlib120.dll"]));
    rows.push(("Microsoft.VC120.MFC", vec!["mfc120.dll", "mfc120u.dll", "mfcm120.dll", "mfcm120u.dll"]));
    rows.push(
        (
            "Microsoft.VC140.CRT",
            vec![
                "msvcp140.dll",
                "vcruntime140.dll",
                "vcruntime140_1.dll",
                "concrt140.dll",
                "vccorlib140.dll",
            ],
        ),
    );
    rows.push(("Microsoft.VC140.MFC", vec!["mfc140.dll", "mfc140u.dll", "mfcm140.dll", "mfcm140u.dll"]));
    rows.push(("Microsoft.Windows.Common-Controls", vec!["comctl32.dll"]));
    rows
}

/// The library is one of those that a known assembly provides.
pub open spec fn provides(assembly: Seq<char>, library: Seq<char>) -> bool {
    exists|i: int|
        0 <= i < assembly_libraries().len() && (#[trigger] assembly_libraries()[i]).0 == assembly
            && assembly_libraries()[i].1.contains(library)
}

fn is_provided(assembly: &str, library: &str) -> (found: bool)
    ensures
        found == provides(assembly@, library@),
{
    let rows: Vec<(&'static str, Vec<&'static str>)> = known_sxs_assembly_dlls();
    let mut i: usize = 0;
    while i < rows.len()
        invariant
            i <= rows.len(),
            rows@.len() == assembly_libraries().len(),
            forall|k: int|
                0 <= k < rows@.len() ==> (#[trigger] rows@[k]).0@ == assembly_libraries()[k].0
                    && rows@[k].1.deep_view() == assembly_libraries()[k].1,
            forall|k: int|
                0 <= k < i ==> !((#[trigger] assembly_libraries()[k]).0 == assembly@
                    && assembly_libraries()[k].1.contains(library@)),
        decreases rows.len() - i,
    {
        let row: &(&'static str, Vec<&'static str>) = &rows[i];
        let ghost libraries = assembly_libraries()[i as int].1;
        if same_text(row.0, assembly) {
            let mut j: usize = 0;
            while j < row.1.len()
                invariant
                    i < rows@.len(),
                    rows@.len() == assembly_libraries().len(),
                    row.1.deep_view() == libraries,
                    libraries == assembly_libraries()[i as int].1,
                    assembly_libraries()[i as int].0 == assembly@,
                    j <= row.1.len(),
                    forall|k: int| 0 <= k < j ==> #[trigger] libraries[k] != library@,
                decreases row.1.len() - j,
            {
                assert(libraries[j as int] == row.1@[j as int]@);
                if same_text(row.1[j], library) {
                    assert(libraries.contains(library@));
                    return true;
                }
                j += 1;
            }
        }
        i += 1;
    }
    false
}

/// The text without the ends `.dll` that it has.
pub open spec fn without_extensions(text: Seq<char>) -> Seq<char>
    decreases text.len(),
{
    if ends_with(text, ".dll"@) && ".dll"@.len() > 0 {
        without_extensions(text.take(text.len() - ".dll"@.len()))
    } else {
        text
    }
}

fn strip_extensions(text: &str) -> (base: String)
    ensures
        base@ == without_extensions(text@),
{
    let extension: Vec<char> = chars_of(".dll");
    let mut rest: Vec<char> = chars_of(text);
    proof {
        reveal_strlit(".dll");
    }
    while has_suffix(&rest, &extension)
        invariant
            extension@ == ".dll"@,
            ".dll"@.len() == 4,
            without_extensions(rest@) == without_extensions(text@),
        decreases rest.len(),
    {
        let keep: usize = rest.len() - 4;
        assert(rest@.subrange(0, keep as int) =~= rest@.take(keep as int));
        rest.truncate(keep);
    }
    string_of(&rest)
}

/// An assembly of this name answers a search of the section for `wanted`,
/// which is in lower case: one whose name in lower case holds what is wanted,
/// or, for a library, one that provides it or whose name holds the library's
/// name without its extension.
pub open spec fn answers(
    section: u32,
    wanted: Seq<char>,
    name: Seq<char>,
    small_name: Seq<char>,
) -> bool {
    if section == sxs_section::ASSEMBLY_INFORMATION {
        has_part(small_name, wanted)
    } else if section == sxs_section::DLL_REDIRECTION {
        ends_with(wanted, ".dll"@) && (provides(name, wanted) || without_extensions(wanted).len() > 0
            && has_part(small_name, without_extensions(wanted)))
    } else {
        false
    }
}

/// Whether an assembly with the given name, which reads `small_name` in lower
/// case, answers a search of the section for `wanted`.
pub fn answers_search(section_id: u32, wanted: &str, name: &str, small_name: &str) -> (found: bool)
    ensures
        found == answers(section_id, wanted@, name@, small_name@),
{
    if section_id == sxs_section::ASSEMBLY_INFORMATION {
        contains_text(small_name, wanted)
    } else if section_id == sxs_section::DLL_REDIRECTION {
        let wanted_chars: Vec<char> = chars_of(wanted);
        let extension: Vec<char> = chars_of(".dll");
        if !has_suffix(&wanted_chars, &extension) {
            return false;
        }
        if is_provided(name, wanted) {
            return true;
        }
        let base: String = strip_extensions(wanted);
        let is_empty: bool = base.as_str().is_empty();
        !is_empty && contains_text(small_name, &base)
    } else {
        false
    }
}

/// The first of the assemblies from `index` on that answers the search.
pub open spec fn first_answer(
    assemblies: Seq<AssemblyIdentityModel>,
    index: int,
    section: u32,
    wanted: Seq<char>,
) -> Option<AssemblyIdentityModel>
    decreases assemblies.len() - index,
{
    if index < 0 || index >= assemblies.len() {
        None
    } else if answers(
        section,
        wanted,
        assemblies[index].name,
        lower_text(assemblies[index].name),
    ) {
        Some(assemblies[index])
    } else {
        first_answer(assemblies, index + 1, section, wanted)
    }
}

/// What a search of one context finds.
pub open spec fn found_in(
    context: ActivationContextModel,
    handle: u64,
    section: u32,
    wanted: Seq<char>,
) -> Option<ActCtxSectionResultModel> {
    match context.manifest_info {
        None => None,
        Some(manifest) => match first_answer(manifest.assemblies, 0, section, wanted) {
            None => None,
            Some(identity) => Some(
                ActCtxSectionResultModel {
                    section_id: section,
                    assembly_identity: Some(identity),
                    dll_path: match context.assembly_directory {
                        Some(directory) if section == sxs_section::DLL_REDIRECTION => Some(
                            directory + "/"@ + wanted,
                        ),
                        _ => None,
                    },
                    context_handle: handle,
                    assembly_directory: context.assembly_directory,
                },
            ),
        },
    }
}

/// What a search of the stack finds: the latest context counts first, and a
/// handle without a context ends the search.
pub open spec fn found_on(
    contexts: Map<u64, ActivationContext>,
    stack: Seq<u64>,
    section: u32,
    wanted: Seq<char>,
) -> Option<ActCtxSectionResultModel>
    decreases stack.len(),
{
    if stack.len() == 0 || !contexts.contains_key(stack.last()) {
        None
    } else {
        match found_in(contexts[stack.last()].deep_view(), stack.last(), section, wanted) {
            Some(result) => Some(result),
            None => found_on(contexts, stack.drop_last(), section, wanted),
        }
    }
}

fn search_context(context: &ActivationContext, handle: u64, section_id: u32, wanted: &str) -> (result:
    Option<ActCtxSectionResult>)
    ensures
        result.deep_view() == found_in(context.deep_view(), handle, section_id, wanted@),
{
    match &context.manifest_info {
        None => None,
        Some(manifest) => {
            let ghost all = manifest.deep_view().assemblies;
            let ghost whole = first_answer(all, 0, section_id, wanted@);
            let mut i: usize = 0;
            while i < manifest.assemblies.len()
                invariant
                    i <= manifest.assemblies.len(),
                    all == manifest.deep_view().assemblies,
                    whole == first_answer(all, 0, section_id, wanted@),
                    whole == first_answer(all, i as int, section_id, wanted@),
                    context.manifest_info == Some(*manifest),
                decreases manifest.assemblies.len() - i,
            {
                let identity: &AssemblyIdentity = &manifest.assemblies[i];
                assert(all[i as int] == identity.deep_view());
                let small: String = lowercase_of(&identity.name);
                if answers_search(section_id, wanted, &identity.name, &small) {
                    let path: Option<String> = match &context.assembly_directory {
                        Some(directory) if section_id == sxs_section::DLL_REDIRECTION => {
                            let mut path: String = directory.clone();
                            push_text(&mut path, "/");
                            push_text(&mut path, wanted);
                            Some(path)
                        },
                        _ => None,
                    };
                    return Some(
                        ActCtxSectionResult {
                            section_id,
                            assembly_identity: Some(identity.duplicate()),
                            dll_path: path,
                            context_handle: handle,
                            assembly_directory: copy_of_text(&context.assembly_directory),
                        },
                    );
                }
                i += 1;
            }
            None
        },
    }
}

/// Searches the contexts on the stack for what is wanted, in lower case.
pub fn search_contexts(
    contexts: &BTreeMap<u64, ActivationContext>,
    stack: &[u64],
    section_id: u32,
    wanted: &str,
) -> (result: Option<ActCtxSectionResult>)
    ensures
        result.deep_view() == (if wanted@.len() == 0 {
            None
        } else {
            found_on(contexts@, stack@, section_id, wanted@)
        }),
{
    broadcast use vstd::std_specs::btree::group_btree_axioms;

    if wanted.is_empty() {
        return None;
    }
    let ghost whole = found_on(contexts@, stack@, section_id, wanted@);
    let mut left: usize = stack.len();
    assert(stack@.take(left as int) =~= stack@);
    while left > 0
        invariant
            left <= stack.len(),
            whole == found_on(contexts@, stack@, section_id, wanted@),
            whole == found_on(contexts@, stack@.take(left as int), section_id, wanted@),
            wanted@.len() > 0,
        decreases left,
    {
        broadcast use vstd::std_specs::btree::group_btree_axioms;

        let handle: u64 = stack[left - 1];
        assert(stack@.take(left as int).last() == handle);
        assert(stack@.take(left as int).drop_last() =~= stack@.take(left - 1));
        match contexts.get(&handle) {
            None => {
                return None;
            },
            Some(context) => match search_context(context, handle, section_id, wanted) {
                Some(result) => {
                    return Some(result);
                },
                None => {},
            },
        }
        left -= 1;
    }
    None
}

/// Searches the contexts on the stack, the latest first, for a text in a
/// section.
pub fn find_activation_context_section(
    contexts: &BTreeMap<u64, ActivationContext>,
    stack: &[u64],
    section_id: u32,
    search_string: &str,
) -> (result: Option<ActCtxSectionResult>)
    ensures
        result.deep_view() == (if lower_text(search_string@).len() == 0 {
            None
        } else {
            found_on(contexts@, stack@, section_id, lower_text(search_string@))
        }),
{
    let wanted: String = lowercase_of(search_string);
    search_contexts(contexts, stack, section_id, &wanted)
}

/// The runtime assemblies of a plan are those of the manifest whose names say
/// so; each is bound once, and the bindings are in the order of their keys.
pub proof fn lemma_plan_for(manifest: ManifestInfoModel)
    ensures
        ({
            let plan = plan_for(manifest);
            let key = |model: ActivationBindingModel| ActivationBinding::key_of(model);
            &&& plan.assemblies == manifest.assemblies
            &&& forall|identity: AssemblyIdentityModel| #[trigger]
                plan.vc_runtime_assemblies.contains(identity) <==> manifest.assemblies.contains(
                    identity,
                ) && begins_with(identity.name, "Microsoft.VC"@)
            &&& ordered_by(plan.vc_runtime_bindings, key)
            &&& plan.vc_runtime_bindings.to_multiset() == plan.vc_runtime_assemblies.map_values(
                |identity: AssemblyIdentityModel| binding_of(identity),
            ).to_multiset()
        }),
{
    lemma_filtered(
        manifest.assemblies,
        |identity: AssemblyIdentityModel| is_runtime(identity),
    );
    let runtime = manifest.assemblies.filter(|identity: AssemblyIdentityModel| is_runtime(identity));
    lemma_sorted_by(
        runtime.map_values(|identity: AssemblyIdentityModel| binding_of(identity)),
        |model: ActivationBindingModel| ActivationBinding::key_of(model),
    );
}

/// The first assembly that answers is found, and nothing where none does.
pub proof fn lemma_first_answer(
    assemblies: Seq<AssemblyIdentityModel>,
    section: u32,
    wanted: Seq<char>,
)
    ensures
        match first_answer(assemblies, 0, section, wanted) {
            Some(identity) => exists|i: int| is_first_answer(assemblies, section, wanted, i)
                && assemblies[i] == identity,
            None => forall|i: int|
                0 <= i < assemblies.len() ==> !answers(
                    section,
                    wanted,
                    (#[trigger] assemblies[i]).name,
                    lower_text(assemblies[i].name),
                ),
        },
{
    lemma_first_answer_from(assemblies, section, wanted, 0);
}

/// Assembly `i` answers and none before it does.
pub open spec fn is_first_answer(
    assemblies: Seq<AssemblyIdentityModel>,
    section: u32,
    wanted: Seq<char>,
    i: int,
) -> bool {
    &&& 0 <= i < assemblies.len()
    &&& answers(section, wanted, assemblies[i].name, lower_text(assemblies[i].name))
    &&& forall|j: int|
        0 <= j < i ==> !answers(
            section,
            wanted,
            (#[trigger] assemblies[j]).name,
            lower_text(assemblies[j].name),
        )
}

proof fn lemma_first_answer_from(
    assemblies: Seq<AssemblyIdentityModel>,
    section: u32,
    wanted: Seq<char>,
    from: int,
)
    requires
        0 <= from <= assemblies.len(),
        forall|j: int|
            0 <= j < from ==> !answers(
                section,
                wanted,
                (#[trigger] assemblies[j]).name,
                lower_text(assemblies[j].name),
            ),
    ensures
        match first_answer(assemblies, from, section, wanted) {
            Some(identity) => exists|i: int| is_first_answer(assemblies, section, wanted, i)
                && assemblies[i] == identity,
            None => forall|i: int|
                0 <= i < assemblies.len() ==> !answers(
                    section,
                    wanted,
                    (#[trigger] assemblies[i]).name,
                    lower_text(assemblies[i].name),
                ),
        },
    decreases assemblies.len() - from,
{
    if from < assemblies.len() {
        if answers(section, wanted, assemblies[from].name, lower_text(assemblies[from].name)) {
            assert(is_first_answer(assemblies, section, wanted, from));
        } else {
            lemma_first_answer_from(assemblies, section, wanted, from + 1);
        }
    }
}

/// The context on top of the stack is asked first and the ones below it only
/// where it has no answer; what is found names the context, and a library only
/// for a redirected library, in the directory of the assembly.
pub proof fn lemma_top_first(
    contexts: Map<u64, ActivationContext>,
    stack: Seq<u64>,
    handle: u64,
    section: u32,
    wanted: Seq<char>,
)
    requires
        contexts.contains_key(handle),
    ensures
        ({
            let context = contexts[handle].deep_view();
            let here = found_in(context, handle, section, wanted);
            let all = found_on(contexts, stack.push(handle), section, wanted);
            &&& here is Some ==> all == here
            &&& here is None ==> all == found_on(contexts, stack, section, wanted)
            &&& here matches Some(result) ==> {
                &&& result.context_handle == handle
                &&& result.section_id == section
                &&& result.assembly_directory == context.assembly_directory
                &&& context.manifest_info is Some
                &&& result.assembly_identity == first_answer(
                    context.manifest_info->0.assemblies,
                    0,
                    section,
                    wanted,
                )
                &&& result.dll_path is Some <==> section == 2 && context.assembly_directory is Some
                &&& result.dll_path matches Some(path) ==> path == context.assembly_directory->0
                    + "/"@ + wanted
            }
        }),
        found_on(contexts, Seq::empty(), section, wanted) is None,
{
    assert(stack.push(handle).drop_last() =~= stack);
}

/// A name loses all its endings of a library, and nothing else.
pub proof fn lemma_without_extensions(text: Seq<char>)
    ensures
        without_extensions(text + ".dll"@) == without_extensions(text),
        !ends_with(text, ".dll"@) ==> without_extensions(text) == text,
        !ends_with(without_extensions(text), ".dll"@),
        begins_with(text, without_extensions(text)),
    decreases text.len(),
{
    reveal_strlit(".dll");
    let longer = text + ".dll"@;
    assert(longer.skip(longer.len() - 4) =~= ".dll"@);
    assert(longer.take(longer.len() - 4) =~= text);
    if ends_with(text, ".dll"@) {
        let front = text.take(text.len() - 4);
        lemma_without_extensions(front);
        let base = without_extensions(front);
        assert(text.take(base.len() as int) =~= front.take(base.len() as int));
    } else {
        assert(text.take(text.len() as int) =~= text);
    }
}

/// The case of an assembly's name does not matter for its key or for its
/// libraries, and a part that is missing counts as a star; no two parts are
/// taken for each other.
pub proof fn lemma_activation_key(
    identity: AssemblyIdentityModel,
    other: AssemblyIdentityModel,
    text: Seq<char>,
)
    ensures
        lower(identity.name) == lower(other.name) && identity.version == other.version
            && identity.processor_architecture == other.processor_architecture
            && identity.public_key_token == other.public_key_token ==> binding_of(
            identity,
        ).activation_key == binding_of(other).activation_key && binding_of(identity).dlls
            == binding_of(other).dlls,
        key_text(AssemblyIdentityModel { version: None, ..identity }) == key_text(
            AssemblyIdentityModel { version: Some("*"@), ..identity },
        ),
        begins_with(
            key_text(AssemblyIdentityModel { version: Some(text), ..identity }),
            lower(identity.name) + "|"@ + text + "|"@,
        ),
        ends_with(
            key_text(AssemblyIdentityModel { public_key_token: Some(text), ..identity }),
            "|"@ + text,
        ),
        has_part(
            key_text(AssemblyIdentityModel { processor_architecture: Some(text), ..identity }),
            text_or_star(identity.version) + "|"@ + text + "|"@,
        ),
        binding_of(identity).identity == identity,
{
    let small = lower(identity.name);
    let bar = "|"@;
    let version = AssemblyIdentityModel { version: Some(text), ..identity };
    let front = small + bar + text + bar;
    assert(key_text(version).take(front.len() as int) =~= front);
    let token = AssemblyIdentityModel { public_key_token: Some(text), ..identity };
    let whole = key_text(token);
    assert(whole.skip(whole.len() - (bar + text).len()) =~= bar + text);
    let machine = AssemblyIdentityModel { processor_architecture: Some(text), ..identity };
    let key = key_text(machine);
    let part = text_or_star(identity.version) + bar + text + bar;
    let from = (small + bar).len() as int;
    assert(key =~= (small + bar) + part + text_or_star(identity.public_key_token));
    assert(key.subrange(from, from + part.len()) =~= part);
    assert(stands_at(key, part, from));
}

/// An assembly answers a search for any part of its name, in whatever case. It
/// answers for a library of its own name, and for those that a known assembly of
/// its name provides; what does not end as a library does is no library, and no
/// other section is answered.
pub proof fn lemma_who_answers(section: u32, wanted: Seq<char>, name: Seq<char>)
    ensures
        answers(1, lower_text(name), name, lower_text(name)),
        answers(1, wanted, name, lower_text(name)) <==> has_part(lower_text(name), wanted),
        lower_text(name).len() > 0 && !ends_with(lower_text(name), ".dll"@) ==> answers(
            2,
            lower_text(name) + ".dll"@,
            name,
            lower_text(name),
        ),
        !ends_with(wanted, ".dll"@) ==> !answers(2, wanted, name, lower_text(name)),
        ends_with(wanted, ".dll"@) && provides(name, wanted) ==> answers(
            2,
            wanted,
            name,
            lower_text(name),
        ),
        answers(2, wanted, name, lower_text(name)) ==> provides(name, wanted) || has_part(
            lower_text(name),
            without_extensions(wanted),
        ),
        section != 1 && section != 2 ==> !answers(section, wanted, name, lower_text(name)),
{
    let small = lower_text(name);
    assert(small.subrange(0, small.len() as int) =~= small);
    assert(stands_at(small, small, 0));
    let library = small + ".dll"@;
    reveal_strlit(".dll");
    assert(library.skip(library.len() - 4) =~= ".dll"@);
    lemma_without_extensions(small);
}

} // verus!
