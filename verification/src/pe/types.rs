//! The parts of a parsed image, and their mathematical models.
//!
//! Text is modelled by its sequence of characters and a vector by the sequence
//! of its elements' models; a type made of numbers alone is its own model.
use vstd::prelude::*;

verus! {

/// One entry of the data directory table.
#[derive(Debug, Clone, Copy, PartialEq, Eq, Structural)]
pub struct DataDirectory {
    pub virtual_address: u32,
    pub size: u32,
}

impl DeepView for DataDirectory {
    type V = DataDirectory;

    open spec fn deep_view(&self) -> DataDirectory {
        *self
    }
}

impl Default for DataDirectory {
    fn default() -> (directory: Self)
        ensures
            directory == no_directory(),
    {
        DataDirectory { virtual_address: 0, size: 0 }
    }
}

/// The entry of an absent directory.
pub open spec fn no_directory() -> DataDirectory {
    DataDirectory { virtual_address: 0, size: 0 }
}

/// A section header.
#[derive(Debug, Clone, PartialEq, Eq)]
pub struct PeSection {
    pub name: String,
    pub virtual_address: u32,
    pub virtual_size: u32,
    pub raw_data_ptr: u32,
    pub raw_data_size: u32,
    pub characteristics: u32,
}

/// The model of [`PeSection`].
#[verifier::ext_equal]
pub struct PeSectionModel {
    pub name: Seq<char>,
    pub virtual_address: u32,
    pub virtual_size: u32,
    pub raw_data_ptr: u32,
    pub raw_data_size: u32,
    pub characteristics: u32,
}

impl DeepView for PeSection {
    type V = PeSectionModel;

    open spec fn deep_view(&self) -> PeSectionModel {
        PeSectionModel {
            name: self.name.deep_view(),
            virtual_address: self.virtual_address,
            virtual_size: self.virtual_size,
            raw_data_ptr: self.raw_data_ptr,
            raw_data_size: self.raw_data_size,
            characteristics: self.characteristics,
        }
    }
}

/// One entry of the debug directory.
#[derive(Debug, Clone, Copy, PartialEq, Eq, Structural)]
pub struct DebugDirectoryEntry {
    pub ty: u32,
    pub size_of_data: u32,
    pub address_of_raw_data: u32,
    pub pointer_to_raw_data: u32,
}

impl DeepView for DebugDirectoryEntry {
    type V = DebugDirectoryEntry;

    open spec fn deep_view(&self) -> DebugDirectoryEntry {
        *self
    }
}

/// The load configuration directory.
#[derive(Debug, Clone, Copy, PartialEq, Eq, Structural)]
pub struct LoadConfig {
    pub security_cookie: u64,
    pub guard_flags: u32,
    pub se_handler_table: u64,
    pub se_handler_count: u64,
    pub guard_cf_check_function_pointer: u64,
    pub guard_cf_dispatch_function_pointer: u64,
    pub guard_cf_function_table: u64,
    pub guard_cf_function_count: u64,
}

impl DeepView for LoadConfig {
    type V = LoadConfig;

    open spec fn deep_view(&self) -> LoadConfig {
        *self
    }
}

/// What an import asks for.
#[derive(Debug, Clone, PartialEq, Eq)]
pub enum ImportSymbol {
    ByName { hint: u16, name: String },
    ByOrdinal { ordinal: u16 },
}

/// The model of [`ImportSymbol`].
#[verifier::ext_equal]
pub enum ImportSymbolModel {
    ByName { hint: u16, name: Seq<char> },
    ByOrdinal { ordinal: u16 },
}

impl DeepView for ImportSymbol {
    type V = ImportSymbolModel;

    open spec fn deep_view(&self) -> ImportSymbolModel {
        match *self {
            ImportSymbol::ByName { hint, name } => ImportSymbolModel::ByName { hint, name: name@ },
            ImportSymbol::ByOrdinal { ordinal } => ImportSymbolModel::ByOrdinal { ordinal },
        }
    }
}

impl ImportSymbol {
    /// A copy of the symbol.
    pub fn duplicate(&self) -> (copy: Self)
        ensures
            copy == *self,
    {
        match self {
            ImportSymbol::ByName { hint, name } => ImportSymbol::ByName {
                hint: *hint,
                name: name.clone(),
            },
            ImportSymbol::ByOrdinal { ordinal } => ImportSymbol::ByOrdinal { ordinal: *ordinal },
        }
    }
}

/// One imported symbol and the slot its address goes to.
#[derive(Debug, Clone, PartialEq, Eq)]
pub struct ImportThunk {
    pub symbol: ImportSymbol,
    pub iat_rva: u32,
}

/// The model of [`ImportThunk`].
#[verifier::ext_equal]
pub struct ImportThunkModel {
    pub symbol: ImportSymbolModel,
    pub iat_rva: u32,
}

impl DeepView for ImportThunk {
    type V = ImportThunkModel;

    open spec fn deep_view(&self) -> ImportThunkModel {
        ImportThunkModel {
            symbol: self.symbol.deep_view(),
            iat_rva: self.iat_rva,
        }
    }
}

/// The symbols imported from one library.
#[derive(Debug, Clone, PartialEq, Eq)]
pub struct ImportDescriptor {
    pub dll_name: String,
    pub imports: Vec<ImportThunk>,
    pub delay_load: bool,
}

/// The model of [`ImportDescriptor`].
#[verifier::ext_equal]
pub struct ImportDescriptorModel {
    pub dll_name: Seq<char>,
    pub imports: Seq<ImportThunkModel>,
    pub delay_load: bool,
}

impl DeepView for ImportDescriptor {
    type V = ImportDescriptorModel;

    open spec fn deep_view(&self) -> ImportDescriptorModel {
        ImportDescriptorModel {
            dll_name: self.dll_name.deep_view(),
            imports: self.imports.deep_view(),
            delay_load: self.delay_load,
        }
    }
}

/// A library whose addresses the linker computed in advance, and the
/// libraries that its exports forward to.
#[derive(Debug, PartialEq, Eq)]
pub struct BoundImportDescriptor {
    pub time_date_stamp: u32,
    pub module_name: String,
    pub forwarder_chain: Vec<BoundImportDescriptor>,
}

/// The model of [`BoundImportDescriptor`].
#[verifier::ext_equal]
pub struct BoundImportDescriptorModel {
    pub time_date_stamp: u32,
    pub module_name: Seq<char>,
    pub forwarder_chain: Seq<BoundImportDescriptorModel>,
}

impl BoundImportDescriptor {
    /// The model of the descriptor and of everything in its forwarder chain.
    pub open spec fn model(self) -> BoundImportDescriptorModel
        decreases self,
    {
        BoundImportDescriptorModel {
            time_date_stamp: self.time_date_stamp,
            module_name: self.module_name@,
            forwarder_chain: Seq::new(
                self.forwarder_chain@.len(),
                |i: int|
                    if 0 <= i < self.forwarder_chain@.len() {
                        self.forwarder_chain@[i].model()
                    } else {
                        arbitrary()
                    },
            ),
        }
    }
}

impl Clone for BoundImportDescriptor {
    fn clone(&self) -> (copy: Self)
        ensures
            copy.model() == self.model(),
        decreases self,
    {
        let mut forwarder_chain: Vec<BoundImportDescriptor> = Vec::new();
        let mut i: usize = 0;
        while i < self.forwarder_chain.len()
            invariant
                i <= self.forwarder_chain.len(),
                forwarder_chain.len() == i,
                forall|j: int|
                    0 <= j < i ==> (#[trigger] forwarder_chain@[j]).model()
                        == self.forwarder_chain@[j].model(),
            decreases self.forwarder_chain.len() - i,
        {
            forwarder_chain.push(self.forwarder_chain[i].clone());
            i += 1;
        }
        let copy = BoundImportDescriptor {
            time_date_stamp: self.time_date_stamp,
            module_name: self.module_name.clone(),
            forwarder_chain,
        };
        assert(copy.model().forwarder_chain =~= self.model().forwarder_chain);
        copy
    }
}

impl DeepView for BoundImportDescriptor {
    type V = BoundImportDescriptorModel;

    open spec fn deep_view(&self) -> BoundImportDescriptorModel {
        self.model()
    }
}

/// The header of a .NET assembly (`IMAGE_COR20_HEADER`).
#[derive(Debug, Clone, Copy, PartialEq, Eq, Structural)]
pub struct ClrHeader {
    /// Major version of the runtime.
    pub major_runtime_version: u16,
    /// Minor version of the runtime.
    pub minor_runtime_version: u16,
    /// Where the metadata lies.
    pub metadata: DataDirectory,
    /// The `COMIMAGE_FLAGS_*` of the assembly.
    pub flags: u32,
    /// Entry point token.
    pub entry_point_token: u32,
    /// Managed resources.
    pub resources: DataDirectory,
    /// Strong name signature.
    pub strong_name_signature: DataDirectory,
    /// Code manager table.
    pub code_manager_table: DataDirectory,
    /// Managed vtable slots.
    pub vtable_fixups: DataDirectory,
    /// Export address table jumps.
    pub export_address_table_jumps: DataDirectory,
    /// Precompiled image header.
    pub managed_native_header: DataDirectory,
}

impl DeepView for ClrHeader {
    type V = ClrHeader;

    open spec fn deep_view(&self) -> ClrHeader {
        *self
    }
}

/// Where an export leads: into the image, or to another library.
#[derive(Debug, Clone, PartialEq, Eq)]
pub enum ExportTarget {
    Rva(u32),
    Forwarder(String),
}

/// The model of [`ExportTarget`].
#[verifier::ext_equal]
pub enum ExportTargetModel {
    Rva(u32),
    Forwarder(Seq<char>),
}

impl DeepView for ExportTarget {
    type V = ExportTargetModel;

    open spec fn deep_view(&self) -> ExportTargetModel {
        match *self {
            ExportTarget::Rva(rva) => ExportTargetModel::Rva(rva),
            ExportTarget::Forwarder(text) => ExportTargetModel::Forwarder(text@),
        }
    }
}

/// An exported symbol.
#[derive(Debug, Clone, PartialEq, Eq)]
pub struct ExportSymbol {
    pub ordinal: u32,
    pub name: Option<String>,
    pub target: ExportTarget,
}

/// The model of [`ExportSymbol`].
#[verifier::ext_equal]
pub struct ExportSymbolModel {
    pub ordinal: u32,
    pub name: Option<Seq<char>>,
    pub target: ExportTargetModel,
}

impl DeepView for ExportSymbol {
    type V = ExportSymbolModel;

    open spec fn deep_view(&self) -> ExportSymbolModel {
        ExportSymbolModel {
            ordinal: self.ordinal,
            name: self.name.deep_view(),
            target: self.target.deep_view(),
        }
    }
}

impl ExportSymbol {
    /// A copy of the symbol.
    pub fn duplicate(&self) -> (copy: Self)
        ensures
            copy == *self,
    {
        ExportSymbol {
            ordinal: self.ordinal,
            name: match &self.name {
                Some(name) => Some(name.clone()),
                None => None,
            },
            target: match &self.target {
                ExportTarget::Rva(rva) => ExportTarget::Rva(*rva),
                ExportTarget::Forwarder(text) => ExportTarget::Forwarder(text.clone()),
            },
        }
    }
}

/// How a relocation changes the image.
#[derive(Debug, Clone, Copy, PartialEq, Eq, Structural)]
pub enum RelocationType {
    Absolute,
    HighLow,
    Dir64,
    Unsupported(u16),
}

/// One relocation inside a page.
#[derive(Debug, Clone, Copy, PartialEq, Eq, Structural)]
pub struct RelocationEntry {
    pub kind: RelocationType,
    pub offset: u16,
}

impl DeepView for RelocationEntry {
    type V = RelocationEntry;

    open spec fn deep_view(&self) -> RelocationEntry {
        *self
    }
}

/// The relocations of one page.
#[derive(Debug, Clone, PartialEq, Eq)]
pub struct RelocationBlock {
    pub page_rva: u32,
    pub entries: Vec<RelocationEntry>,
}

/// The model of [`RelocationBlock`].
#[verifier::ext_equal]
pub struct RelocationBlockModel {
    pub page_rva: u32,
    pub entries: Seq<RelocationEntry>,
}

impl DeepView for RelocationBlock {
    type V = RelocationBlockModel;

    open spec fn deep_view(&self) -> RelocationBlockModel {
        RelocationBlockModel {
            page_rva: self.page_rva,
            entries: self.entries.deep_view(),
        }
    }
}

/// The thread local storage directory.
#[derive(Debug, Clone, PartialEq, Eq)]
pub struct TlsDirectory {
    pub raw_data_start: u64,
    pub raw_data_end: u64,
    pub address_of_index: u64,
    pub address_of_callbacks: u64,
    pub callbacks: Vec<u64>,
}

/// The model of [`TlsDirectory`].
#[verifier::ext_equal]
pub struct TlsDirectoryModel {
    pub raw_data_start: u64,
    pub raw_data_end: u64,
    pub address_of_index: u64,
    pub address_of_callbacks: u64,
    pub callbacks: Seq<u64>,
}

impl DeepView for TlsDirectory {
    type V = TlsDirectoryModel;

    open spec fn deep_view(&self) -> TlsDirectoryModel {
        TlsDirectoryModel {
            raw_data_start: self.raw_data_start,
            raw_data_end: self.raw_data_end,
            address_of_index: self.address_of_index,
            address_of_callbacks: self.address_of_callbacks,
            callbacks: self.callbacks.deep_view(),
        }
    }
}

/// What the version resource says of the product.
#[derive(Debug, Clone, PartialEq, Eq)]
pub struct VersionInfo {
    pub product_name: Option<String>,
    pub file_version: Option<String>,
}

/// The model of [`VersionInfo`].
#[verifier::ext_equal]
pub struct VersionInfoModel {
    pub product_name: Option<Seq<char>>,
    pub file_version: Option<Seq<char>>,
}

impl DeepView for VersionInfo {
    type V = VersionInfoModel;

    open spec fn deep_view(&self) -> VersionInfoModel {
        VersionInfoModel {
            product_name: self.product_name.deep_view(),
            file_version: self.file_version.deep_view(),
        }
    }
}

/// Where a manifest came from.
#[derive(Debug, Clone, Copy, PartialEq, Eq, Structural)]
pub enum ManifestSource {
    Embedded,
    External,
}

/// The identity of an assembly that a manifest names.
#[derive(Debug, Clone, PartialEq, Eq)]
pub struct AssemblyIdentity {
    pub name: String,
    pub version: Option<String>,
    pub processor_architecture: Option<String>,
    pub public_key_token: Option<String>,
    pub type_attr: Option<String>,
}

/// The model of [`AssemblyIdentity`].
#[verifier::ext_equal]
pub struct AssemblyIdentityModel {
    pub name: Seq<char>,
    pub version: Option<Seq<char>>,
    pub processor_architecture: Option<Seq<char>>,
    pub public_key_token: Option<Seq<char>>,
    pub type_attr: Option<Seq<char>>,
}

impl DeepView for AssemblyIdentity {
    type V = AssemblyIdentityModel;

    open spec fn deep_view(&self) -> AssemblyIdentityModel {
        AssemblyIdentityModel {
            name: self.name.deep_view(),
            version: self.version.deep_view(),
            processor_architecture: self.processor_architecture.deep_view(),
            public_key_token: self.public_key_token.deep_view(),
            type_attr: self.type_attr.deep_view(),
        }
    }
}

impl AssemblyIdentity {
    /// A copy of the identity.
    pub fn duplicate(&self) -> (copy: Self)
        ensures
            copy == *self,
    {
        AssemblyIdentity {
            name: self.name.clone(),
            version: copy_of_text(&self.version),
            processor_architecture: copy_of_text(&self.processor_architecture),
            public_key_token: copy_of_text(&self.public_key_token),
            type_attr: copy_of_text(&self.type_attr),
        }
    }
}

/// A copy of an optional text.
pub fn copy_of_text(text: &Option<String>) -> (copy: Option<String>)
    ensures
        copy == *text,
{
    match text {
        Some(inner) => Some(inner.clone()),
        None => None,
    }
}

/// What the loader needs of a manifest.
#[derive(Debug, Clone, PartialEq, Eq)]
pub struct ManifestInfo {
    pub source: ManifestSource,
    pub supported_os: Vec<String>,
    pub dpi_awareness: Option<String>,
    pub assemblies: Vec<AssemblyIdentity>,
}

/// The model of [`ManifestInfo`].
#[verifier::ext_equal]
pub struct ManifestInfoModel {
    pub source: ManifestSource,
    pub supported_os: Seq<Seq<char>>,
    pub dpi_awareness: Option<Seq<char>>,
    pub assemblies: Seq<AssemblyIdentityModel>,
}

impl DeepView for ManifestInfo {
    type V = ManifestInfoModel;

    open spec fn deep_view(&self) -> ManifestInfoModel {
        ManifestInfoModel {
            source: self.source,
            supported_os: self.supported_os.deep_view(),
            dpi_awareness: self.dpi_awareness.deep_view(),
            assemblies: self.assemblies.deep_view(),
        }
    }
}

/// The libraries that stand for one runtime assembly.
#[derive(Debug, Clone, PartialEq, Eq)]
pub struct ActivationBinding {
    pub identity: AssemblyIdentity,
    pub activation_key: String,
    pub dlls: Vec<String>,
}

/// The model of [`ActivationBinding`].
#[verifier::ext_equal]
pub struct ActivationBindingModel {
    pub identity: AssemblyIdentityModel,
    pub activation_key: Seq<char>,
    pub dlls: Seq<Seq<char>>,
}

impl DeepView for ActivationBinding {
    type V = ActivationBindingModel;

    open spec fn deep_view(&self) -> ActivationBindingModel {
        ActivationBindingModel {
            identity: self.identity.deep_view(),
            activation_key: self.activation_key.deep_view(),
            dlls: self.dlls.deep_view(),
        }
    }
}

/// How a manifest binds side-by-side assemblies.
#[derive(Debug, Clone, PartialEq, Eq)]
pub struct ActivationContextPlan {
    pub assemblies: Vec<AssemblyIdentity>,
    pub vc_runtime_assemblies: Vec<AssemblyIdentity>,
    pub vc_runtime_bindings: Vec<ActivationBinding>,
}

/// The model of [`ActivationContextPlan`].
#[verifier::ext_equal]
pub struct ActivationContextPlanModel {
    pub assemblies: Seq<AssemblyIdentityModel>,
    pub vc_runtime_assemblies: Seq<AssemblyIdentityModel>,
    pub vc_runtime_bindings: Seq<ActivationBindingModel>,
}

impl DeepView for ActivationContextPlan {
    type V = ActivationContextPlanModel;

    open spec fn deep_view(&self) -> ActivationContextPlanModel {
        ActivationContextPlanModel {
            assemblies: self.assemblies.deep_view(),
            vc_runtime_assemblies: self.vc_runtime_assemblies.deep_view(),
            vc_runtime_bindings: self.vc_runtime_bindings.deep_view(),
        }
    }
}

/// A redirection of an assembly to another version.
#[derive(Debug, Clone, PartialEq, Eq)]
pub struct BindingRedirect {
    pub name: String,
    pub public_key_token: String,
    pub version: String,
    pub culture: String,
}

/// The model of [`BindingRedirect`].
#[verifier::ext_equal]
pub struct BindingRedirectModel {
    pub name: Seq<char>,
    pub public_key_token: Seq<char>,
    pub version: Seq<char>,
    pub culture: Seq<char>,
}

impl DeepView for BindingRedirect {
    type V = BindingRedirectModel;

    open spec fn deep_view(&self) -> BindingRedirectModel {
        BindingRedirectModel {
            name: self.name.deep_view(),
            public_key_token: self.public_key_token.deep_view(),
            version: self.version.deep_view(),
            culture: self.culture.deep_view(),
        }
    }
}

/// An activation context: its handle, its place on the activation stack, and
/// the manifest it was made from.
#[derive(Debug, Clone, PartialEq, Eq)]
pub struct ActivationContext {
    pub handle: u64,
    pub cookie: u64,
    pub source: String,
    pub assembly_directory: Option<String>,
    pub manifest_info: Option<ManifestInfo>,
}

/// The model of [`ActivationContext`].
#[verifier::ext_equal]
pub struct ActivationContextModel {
    pub handle: u64,
    pub cookie: u64,
    pub source: Seq<char>,
    pub assembly_directory: Option<Seq<char>>,
    pub manifest_info: Option<ManifestInfoModel>,
}

impl DeepView for ActivationContext {
    type V = ActivationContextModel;

    open spec fn deep_view(&self) -> ActivationContextModel {
        ActivationContextModel {
            handle: self.handle,
            cookie: self.cookie,
            source: self.source.deep_view(),
            assembly_directory: self.assembly_directory.deep_view(),
            manifest_info: self.manifest_info.deep_view(),
        }
    }
}

/// What a mapped section allows.
#[derive(Debug, Clone, Copy, PartialEq, Eq, Structural)]
pub struct MemoryProtection {
    pub read: bool,
    pub write: bool,
    pub execute: bool,
}

impl DeepView for MemoryProtection {
    type V = MemoryProtection;

    open spec fn deep_view(&self) -> MemoryProtection {
        *self
    }
}

/// A section as it lies in memory.
#[derive(Debug, Clone, PartialEq, Eq)]
pub struct SectionMapping {
    pub name: String,
    pub virtual_address: u32,
    pub mapped_size: u32,
    pub raw_data_size: u32,
    pub protection: MemoryProtection,
}

/// The model of [`SectionMapping`].
#[verifier::ext_equal]
pub struct SectionMappingModel {
    pub name: Seq<char>,
    pub virtual_address: u32,
    pub mapped_size: u32,
    pub raw_data_size: u32,
    pub protection: MemoryProtection,
}

impl DeepView for SectionMapping {
    type V = SectionMappingModel;

    open spec fn deep_view(&self) -> SectionMappingModel {
        SectionMappingModel {
            name: self.name.deep_view(),
            virtual_address: self.virtual_address,
            mapped_size: self.mapped_size,
            raw_data_size: self.raw_data_size,
            protection: self.protection,
        }
    }
}

/// An image laid out in memory.
#[derive(Debug, Clone, PartialEq, Eq)]
pub struct MappedImage {
    pub preferred_base: u64,
    pub selected_base: u64,
    pub memory: Vec<u8>,
    pub sections: Vec<SectionMapping>,
}

/// The model of [`MappedImage`].
#[verifier::ext_equal]
pub struct MappedImageModel {
    pub preferred_base: u64,
    pub selected_base: u64,
    pub memory: Seq<u8>,
    pub sections: Seq<SectionMappingModel>,
}

impl DeepView for MappedImage {
    type V = MappedImageModel;

    open spec fn deep_view(&self) -> MappedImageModel {
        MappedImageModel {
            preferred_base: self.preferred_base,
            selected_base: self.selected_base,
            memory: self.memory.deep_view(),
            sections: self.sections.deep_view(),
        }
    }
}

/// An import and the export that serves it.
#[derive(Debug, Clone, PartialEq, Eq)]
pub struct ResolvedImport {
    pub requested_module: String,
    pub resolved_module: String,
    pub symbol: ImportSymbol,
    pub iat_rva: u32,
    pub export: ExportSymbol,
}

/// The model of [`ResolvedImport`].
#[verifier::ext_equal]
pub struct ResolvedImportModel {
    pub requested_module: Seq<char>,
    pub resolved_module: Seq<char>,
    pub symbol: ImportSymbolModel,
    pub iat_rva: u32,
    pub export: ExportSymbolModel,
}

impl DeepView for ResolvedImport {
    type V = ResolvedImportModel;

    open spec fn deep_view(&self) -> ResolvedImportModel {
        ResolvedImportModel {
            requested_module: self.requested_module.deep_view(),
            resolved_module: self.resolved_module.deep_view(),
            symbol: self.symbol.deep_view(),
            iat_rva: self.iat_rva,
            export: self.export.deep_view(),
        }
    }
}

/// What a delay-loaded import gives on first use.
#[derive(Debug, Clone, PartialEq, Eq)]
pub enum DelayLoadOutcome {
    Resolved(ExportSymbol),
    StructuredException { code: u32 },
}

/// The model of [`DelayLoadOutcome`].
#[verifier::ext_equal]
pub enum DelayLoadOutcomeModel {
    Resolved(ExportSymbolModel),
    StructuredException { code: u32 },
}

impl DeepView for DelayLoadOutcome {
    type V = DelayLoadOutcomeModel;

    open spec fn deep_view(&self) -> DelayLoadOutcomeModel {
        match *self {
            DelayLoadOutcome::Resolved(export) => DelayLoadOutcomeModel::Resolved(
                export.deep_view(),
            ),
            DelayLoadOutcome::StructuredException {
                code,
            } => DelayLoadOutcomeModel::StructuredException { code },
        }
    }
}

/// A delay-loaded import and what it gives on first use.
#[derive(Debug, Clone, PartialEq, Eq)]
pub struct DelayLoadResult {
    pub requested_module: String,
    pub resolved_module: String,
    pub symbol: ImportSymbol,
    pub iat_rva: u32,
    pub outcome: DelayLoadOutcome,
}

/// The model of [`DelayLoadResult`].
#[verifier::ext_equal]
pub struct DelayLoadResultModel {
    pub requested_module: Seq<char>,
    pub resolved_module: Seq<char>,
    pub symbol: ImportSymbolModel,
    pub iat_rva: u32,
    pub outcome: DelayLoadOutcomeModel,
}

impl DeepView for DelayLoadResult {
    type V = DelayLoadResultModel;

    open spec fn deep_view(&self) -> DelayLoadResultModel {
        DelayLoadResultModel {
            requested_module: self.requested_module.deep_view(),
            resolved_module: self.resolved_module.deep_view(),
            symbol: self.symbol.deep_view(),
            iat_rva: self.iat_rva,
            outcome: self.outcome.deep_view(),
        }
    }
}

/// A step in the life of a module.
#[derive(Debug, Clone, Copy, PartialEq, Eq, Structural)]
pub enum LifecycleStage {
    TlsProcessAttach(u64),
    DllMainProcessAttach,
    TlsProcessDetach(u64),
    DllMainProcessDetach,
    TlsThreadAttach(u64),
    DllMainThreadAttach,
    TlsThreadDetach(u64),
    DllMainThreadDetach,
}

/// A step in the life of the named module.
#[derive(Debug, Clone, PartialEq, Eq)]
pub struct LifecycleEvent {
    pub module: String,
    pub stage: LifecycleStage,
}

/// The model of [`LifecycleEvent`].
#[verifier::ext_equal]
pub struct LifecycleEventModel {
    pub module: Seq<char>,
    pub stage: LifecycleStage,
}

impl DeepView for LifecycleEvent {
    type V = LifecycleEventModel;

    open spec fn deep_view(&self) -> LifecycleEventModel {
        LifecycleEventModel {
            module: self.module.deep_view(),
            stage: self.stage,
        }
    }
}

/// The order in which modules are loaded and told of processes and threads.
#[derive(Debug, Clone, PartialEq, Eq)]
pub struct LifecyclePlan {
    pub load_order: Vec<String>,
    pub process_attach: Vec<LifecycleEvent>,
    pub process_detach: Vec<LifecycleEvent>,
    pub thread_start: Vec<LifecycleEvent>,
    pub thread_end: Vec<LifecycleEvent>,
}

/// The model of [`LifecyclePlan`].
#[verifier::ext_equal]
pub struct LifecyclePlanModel {
    pub load_order: Seq<Seq<char>>,
    pub process_attach: Seq<LifecycleEventModel>,
    pub process_detach: Seq<LifecycleEventModel>,
    pub thread_start: Seq<LifecycleEventModel>,
    pub thread_end: Seq<LifecycleEventModel>,
}

impl DeepView for LifecyclePlan {
    type V = LifecyclePlanModel;

    open spec fn deep_view(&self) -> LifecyclePlanModel {
        LifecyclePlanModel {
            load_order: self.load_order.deep_view(),
            process_attach: self.process_attach.deep_view(),
            process_detach: self.process_detach.deep_view(),
            thread_start: self.thread_start.deep_view(),
            thread_end: self.thread_end.deep_view(),
        }
    }
}

/// A parsed image.
#[derive(Debug, Clone, PartialEq, Eq)]
pub struct ParsedPe {
    pub machine: u16,
    pub number_of_sections: u16,
    pub characteristics: u16,
    pub optional_header_magic: u16,
    pub subsystem: u16,
    pub dll_characteristics: u16,
    pub address_of_entry_point: u32,
    pub image_base: u64,
    pub size_of_image: u32,
    pub size_of_headers: u32,
    pub section_alignment: u32,
    pub file_alignment: u32,
    pub data_directories: Vec<DataDirectory>,
    pub sections: Vec<PeSection>,
    pub debug_entries: Vec<DebugDirectoryEntry>,
    pub load_config: Option<LoadConfig>,
    pub imports: Vec<ImportDescriptor>,
    pub delay_imports: Vec<ImportDescriptor>,
    pub exports: Vec<ExportSymbol>,
    pub relocations: Vec<RelocationBlock>,
    pub tls_directory: Option<TlsDirectory>,
    pub version_info: VersionInfo,
    pub embedded_manifest: Option<ManifestInfo>,
    pub external_manifest: Option<ManifestInfo>,
    /// Whether the image has a CLR header directory.
    pub is_dotnet: bool,
    /// The CLR header of a .NET assembly.
    pub clr_header: Option<ClrHeader>,
    /// Libraries whose addresses the linker computed in advance.
    pub bound_imports: Vec<BoundImportDescriptor>,
}

/// The model of [`ParsedPe`].
#[verifier::ext_equal]
pub struct ParsedPeModel {
    pub machine: u16,
    pub number_of_sections: u16,
    pub characteristics: u16,
    pub optional_header_magic: u16,
    pub subsystem: u16,
    pub dll_characteristics: u16,
    pub address_of_entry_point: u32,
    pub image_base: u64,
    pub size_of_image: u32,
    pub size_of_headers: u32,
    pub section_alignment: u32,
    pub file_alignment: u32,
    pub data_directories: Seq<DataDirectory>,
    pub sections: Seq<PeSectionModel>,
    pub debug_entries: Seq<DebugDirectoryEntry>,
    pub load_config: Option<LoadConfig>,
    pub imports: Seq<ImportDescriptorModel>,
    pub delay_imports: Seq<ImportDescriptorModel>,
    pub exports: Seq<ExportSymbolModel>,
    pub relocations: Seq<RelocationBlockModel>,
    pub tls_directory: Option<TlsDirectoryModel>,
    pub version_info: VersionInfoModel,
    pub embedded_manifest: Option<ManifestInfoModel>,
    pub external_manifest: Option<ManifestInfoModel>,
    pub is_dotnet: bool,
    pub clr_header: Option<ClrHeader>,
    pub bound_imports: Seq<BoundImportDescriptorModel>,
}

impl DeepView for ParsedPe {
    type V = ParsedPeModel;

    open spec fn deep_view(&self) -> ParsedPeModel {
        ParsedPeModel {
            machine: self.machine,
            number_of_sections: self.number_of_sections,
            characteristics: self.characteristics,
            optional_header_magic: self.optional_header_magic,
            subsystem: self.subsystem,
            dll_characteristics: self.dll_characteristics,
            address_of_entry_point: self.address_of_entry_point,
            image_base: self.image_base,
            size_of_image: self.size_of_image,
            size_of_headers: self.size_of_headers,
            section_alignment: self.section_alignment,
            file_alignment: self.file_alignment,
            data_directories: self.data_directories.deep_view(),
            sections: self.sections.deep_view(),
            debug_entries: self.debug_entries.deep_view(),
            load_config: self.load_config.deep_view(),
            imports: self.imports.deep_view(),
            delay_imports: self.delay_imports.deep_view(),
            exports: self.exports.deep_view(),
            relocations: self.relocations.deep_view(),
            tls_directory: self.tls_directory.deep_view(),
            version_info: self.version_info.deep_view(),
            embedded_manifest: self.embedded_manifest.deep_view(),
            external_manifest: self.external_manifest.deep_view(),
            is_dotnet: self.is_dotnet,
            clr_header: self.clr_header.deep_view(),
            bound_imports: self.bound_imports.deep_view(),
        }
    }
}

impl Default for ClrHeader {
    fn default() -> (header: Self)
        ensures
            header.major_runtime_version == 0,
            header.minor_runtime_version == 0,
            header.metadata == no_directory(),
            header.flags == 0,
            header.entry_point_token == 0,
            header.resources == no_directory(),
            header.strong_name_signature == no_directory(),
            header.code_manager_table == no_directory(),
            header.vtable_fixups == no_directory(),
            header.export_address_table_jumps == no_directory(),
            header.managed_native_header == no_directory(),
    {
        let none = DataDirectory { virtual_address: 0, size: 0 };
        ClrHeader {
            major_runtime_version: 0,
            minor_runtime_version: 0,
            metadata: none,
            flags: 0,
            entry_point_token: 0,
            resources: none,
            strong_name_signature: none,
            code_manager_table: none,
            vtable_fixups: none,
            export_address_table_jumps: none,
            managed_native_header: none,
        }
    }
}

impl Default for VersionInfo {
    fn default() -> (info: Self)
        ensures
            info.product_name is None,
            info.file_version is None,
    {
        VersionInfo { product_name: None, file_version: None }
    }
}

} // verus!
