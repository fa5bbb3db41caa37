//! Side-by-side manifests.
use crate::bytes::{invalid, invalid_for, le16};
use crate::error::{agrees, AppResult, ReasonCode};
use crate::order::{
    ascending, lemma_sorted_by, lemma_sorted_once, lemma_without_repeats, place, place_by, sorted_by,
    sorted_once, without_repeats, Keyed,
};
use crate::pe::imports::directory_entry;
use crate::pe::resources::{
    find_resource_blob, resource_blob, IMAGE_DIRECTORY_ENTRY_RESOURCE, RT_MANIFEST,
};
use crate::pe::rva::decode_text;
use crate::pe::types::{
    AssemblyIdentity, AssemblyIdentityModel, BindingRedirect, BindingRedirectModel, DataDirectory,
    ManifestInfo, ManifestInfoModel, ManifestSource, PeSection, PeSectionModel,
};
use crate::text::{chars_of, same_text, string_of, trim_text, trimmed};
use crate::utf16::{decode, decoded, encoded, lemma_decoded_encoded};
use vstd::prelude::*;
use vstd::utf8::{decode_utf8, encode_utf8, valid_utf8};

verus! {

// ---------------------------------------------------------------------------
// XML documents
// ---------------------------------------------------------------------------

/// An attribute of an XML element.
#[derive(Debug, Clone, PartialEq, Eq)]
pub struct XmlAttribute {
    /// The namespace of the attribute's name, if it has one.
    pub namespace: Option<String>,
    pub name: String,
    pub value: String,
}

/// A node of an XML document.
#[derive(Debug, Clone, PartialEq, Eq)]
pub struct XmlNode {
    /// The local name of an element; empty for other nodes.
    pub name: String,
    /// The text that an element begins with, or that another node holds.
    pub text: Option<String>,
    pub attributes: Vec<XmlAttribute>,
}

/// The namespace, name and value of an attribute.
pub type XmlAttributeModel = (Option<Seq<char>>, Seq<char>, Seq<char>);

/// The name, text and attributes of a node.
pub type XmlNodeModel = (Seq<char>, Option<Seq<char>>, Seq<XmlAttributeModel>);

impl DeepView for XmlAttribute {
    type V = XmlAttributeModel;

    open spec fn deep_view(&self) -> XmlAttributeModel {
        (self.namespace.deep_view(), self.name@, self.value@)
    }
}

impl DeepView for XmlNode {
    type V = XmlNodeModel;

    open spec fn deep_view(&self) -> XmlNodeModel {
        (self.name@, self.text.deep_view(), self.attributes.deep_view())
    }
}

/// `roxmltree::Document::parse` and `Document::descendants`: the nodes of the
/// document in document order, or what the error says where the text is not
/// well-formed XML.
pub uninterp spec fn xml_nodes(text: Seq<char>) -> Result<Seq<XmlNodeModel>, Seq<char>>;

/// `roxmltree::Document::parse`, and of each node of `Document::descendants`
/// its tag name, text and attributes. What the nodes of a given text are, or
/// what the error says of it, is left to the name [`xml_nodes`]. The parser calls itself once for each element
/// inside another: where elements are nested so deeply that the stack runs out,
/// the call does not return, as where memory runs out.
#[verifier::external_body]
fn read_xml(text: &str) -> (nodes: Result<Vec<XmlNode>, String>)
    ensures
        match nodes {
            Ok(list) => xml_nodes(text@) == Ok::<_, Seq<char>>(list.deep_view()),
            Err(fault) => xml_nodes(text@) == Err::<Seq<XmlNodeModel>, _>(fault@),
        },
{
    let document = roxmltree::Document::parse(text).map_err(|error| error.to_string())?;
    let nodes = document.descendants().map(|node| XmlNode {
        name: node.tag_name().name().to_string(),
        text: node.text().map(str::to_string),
        attributes: node.attributes().map(|attribute| XmlAttribute {
            namespace: attribute.namespace().map(str::to_string),
            name: attribute.name().to_string(),
            value: attribute.value().to_string(),
        }).collect(),
    });
    Ok(nodes.collect())
}

/// The value of the first of `attributes` that has the given name and no
/// namespace.
pub open spec fn attribute_value(attributes: Seq<XmlAttributeModel>, name: Seq<char>) -> Option<
    Seq<char>,
>
    decreases attributes.len(),
{
    if attributes.len() == 0 {
        None
    } else if attributes[0].0 is None && attributes[0].1 == name {
        Some(attributes[0].2)
    } else {
        attribute_value(attributes.drop_first(), name)
    }
}

/// The value of the node's attribute with the given name.
fn attribute(node: &XmlNode, name: &str) -> (value: Option<String>)
    ensures
        value.deep_view() == attribute_value(node.deep_view().2, name@),
{
    let ghost all = node.attributes.deep_view();
    let mut i: usize = 0;
    assert(all.skip(0) =~= all);
    while i < node.attributes.len()
        invariant
            i <= node.attributes.len(),
            all == node.attributes.deep_view(),
            attribute_value(all, name@) == attribute_value(all.skip(i as int), name@),
        decreases node.attributes.len() - i,
    {
        let candidate: &XmlAttribute = &node.attributes[i];
        assert(all.skip(i as int)[0] == candidate.deep_view());
        assert(all.skip(i as int).drop_first() =~= all.skip(i + 1));
        if candidate.namespace.is_none() && same_text(&candidate.name, name) {
            return Some(candidate.value.clone());
        }
        i += 1;
    }
    None
}

// ---------------------------------------------------------------------------
// What a manifest says
// ---------------------------------------------------------------------------

/// The system that a node declares support for.
pub open spec fn supported_id(node: XmlNodeModel) -> Option<Seq<char>> {
    if node.0 != "supportedOS"@ {
        None
    } else {
        match attribute_value(node.2, "Id"@) {
            Some(id) => Some(id),
            None => attribute_value(node.2, "id"@),
        }
    }
}

/// The systems that the first `count` nodes declare support for.
pub open spec fn supported_ids(nodes: Seq<XmlNodeModel>, count: int) -> Seq<Seq<char>>
    decreases count,
{
    if count <= 0 {
        Seq::empty()
    } else {
        match supported_id(nodes[count - 1]) {
            None => supported_ids(nodes, count - 1),
            Some(id) => supported_ids(nodes, count - 1).push(id),
        }
    }
}

/// The node says how the program copes with display scaling.
pub open spec fn is_dpi_node(node: XmlNodeModel) -> bool {
    node.0 == "dpiAware"@ || node.0 == "dpiAwareness"@
}

/// What the first such node with a text says.
pub open spec fn dpi_awareness(nodes: Seq<XmlNodeModel>) -> Option<Seq<char>>
    decreases nodes.len(),
{
    if nodes.len() == 0 {
        None
    } else {
        match (is_dpi_node(nodes[0]), nodes[0].1) {
            (true, Some(text)) => Some(trimmed(text)),
            _ => dpi_awareness(nodes.drop_first()),
        }
    }
}

/// The assembly that a node names.
pub open spec fn identity(node: XmlNodeModel) -> Option<AssemblyIdentityModel> {
    if node.0 != "assemblyIdentity"@ {
        None
    } else {
        match attribute_value(node.2, "name"@) {
            None => None,
            Some(name) => Some(
                AssemblyIdentityModel {
                    name,
                    version: attribute_value(node.2, "version"@),
                    processor_architecture: attribute_value(node.2, "processorArchitecture"@),
                    public_key_token: attribute_value(node.2, "publicKeyToken"@),
                    type_attr: attribute_value(node.2, "type"@),
                },
            ),
        }
    }
}

/// The assemblies that the first `count` nodes name.
pub open spec fn identities(nodes: Seq<XmlNodeModel>, count: int) -> Seq<AssemblyIdentityModel>
    decreases count,
{
    if count <= 0 {
        Seq::empty()
    } else {
        match identity(nodes[count - 1]) {
            None => identities(nodes, count - 1),
            Some(assembly) => identities(nodes, count - 1).push(assembly),
        }
    }
}

/// What the nodes of a manifest say: the supported systems in order, each
/// once; the first word on display scaling; and the assemblies by name,
/// without repetitions next to each other.
pub open spec fn manifest_of(nodes: Seq<XmlNodeModel>, source: ManifestSource) -> ManifestInfoModel {
    ManifestInfoModel {
        source,
        supported_os: sorted_once(supported_ids(nodes, nodes.len() as int)),
        dpi_awareness: dpi_awareness(nodes),
        assemblies: without_repeats(
            sorted_by(
                identities(nodes, nodes.len() as int),
                |assembly: AssemblyIdentityModel| assembly.name,
            ),
        ),
    }
}

impl Keyed for AssemblyIdentity {
    open spec fn key_of(model: AssemblyIdentityModel) -> Seq<char> {
        model.name
    }

    fn key(&self) -> &str {
        self.name.as_str()
    }
}

fn supported_systems(nodes: &[XmlNode]) -> (systems: Vec<String>)
    ensures
        systems.deep_view() == sorted_once(
            supported_ids(nodes.deep_view(), nodes.deep_view().len() as int),
        ),
{
    let mut systems: Vec<String> = Vec::new();
    assert(systems.deep_view() =~= Seq::<Seq<char>>::empty());
    let mut i: usize = 0;
    while i < nodes.len()
        invariant
            i <= nodes.len(),
            systems.deep_view() == sorted_once(supported_ids(nodes.deep_view(), i as int)),
        decreases nodes.len() - i,
    {
        let node: &XmlNode = &nodes[i];
        assert(nodes.deep_view()[i as int] == node.deep_view());
        if same_text(&node.name, "supportedOS") {
            let id: Option<String> = match attribute(node, "Id") {
                Some(id) => Some(id),
                None => attribute(node, "id"),
            };
            match id {
                None => {},
                Some(id) => {
                    proof {
                        let now = supported_ids(nodes.deep_view(), i + 1);
                        assert(now.drop_last() =~= supported_ids(nodes.deep_view(), i as int));
                    }
                    place(&mut systems, id);
                },
            }
        }
        i += 1;
    }
    systems
}

fn scaling(nodes: &[XmlNode]) -> (word: Option<String>)
    ensures
        word.deep_view() == dpi_awareness(nodes.deep_view()),
{
    let ghost all = nodes.deep_view();
    let mut i: usize = 0;
    assert(all.skip(0) =~= all);
    while i < nodes.len()
        invariant
            i <= nodes.len(),
            all == nodes.deep_view(),
            dpi_awareness(all) == dpi_awareness(all.skip(i as int)),
        decreases nodes.len() - i,
    {
        let node: &XmlNode = &nodes[i];
        assert(all.skip(i as int)[0] == node.deep_view());
        assert(all.skip(i as int).drop_first() =~= all.skip(i + 1));
        if same_text(&node.name, "dpiAware") || same_text(&node.name, "dpiAwareness") {
            match &node.text {
                None => {},
                Some(text) => {
                    let chars: Vec<char> = chars_of(text);
                    let inner: Vec<char> = trim_text(&chars);
                    return Some(string_of(&inner));
                },
            }
        }
        i += 1;
    }
    None
}

fn named_assembly(node: &XmlNode) -> (assembly: Option<AssemblyIdentity>)
    ensures
        assembly.deep_view() == identity(node.deep_view()),
{
    if !same_text(&node.name, "assemblyIdentity") {
        return None;
    }
    match attribute(node, "name") {
        None => None,
        Some(name) => Some(
            AssemblyIdentity {
                name,
                version: attribute(node, "version"),
                processor_architecture: attribute(node, "processorArchitecture"),
                public_key_token: attribute(node, "publicKeyToken"),
                type_attr: attribute(node, "type"),
            },
        ),
    }
}

fn same_optional(a: &Option<String>, b: &Option<String>) -> (same: bool)
    ensures
        same == (a.deep_view() == b.deep_view()),
{
    match (a, b) {
        (None, None) => true,
        (Some(a), Some(b)) => same_text(a, b),
        _ => false,
    }
}

/// Whether the two identities are the same in every part.
pub fn same_identity(a: &AssemblyIdentity, b: &AssemblyIdentity) -> (same: bool)
    ensures
        same == (a.deep_view() == b.deep_view()),
{
    same_text(&a.name, &b.name) && same_optional(&a.version, &b.version) && same_optional(
        &a.processor_architecture,
        &b.processor_architecture,
    ) && same_optional(&a.public_key_token, &b.public_key_token) && same_optional(
        &a.type_attr,
        &b.type_attr,
    )
}

fn drop_repeats(items: &Vec<AssemblyIdentity>) -> (kept: Vec<AssemblyIdentity>)
    ensures
        kept.deep_view() == without_repeats(items.deep_view()),
{
    let mut kept: Vec<AssemblyIdentity> = Vec::new();
    let ghost all = items.deep_view();
    let mut i: usize = 0;
    assert(kept.deep_view() =~= without_repeats(all.take(0)));
    while i < items.len()
        invariant
            i <= items.len(),
            all == items.deep_view(),
            kept.deep_view() == without_repeats(all.take(i as int)),
        decreases items.len() - i,
    {
        let ghost now = all.take(i + 1);
        proof {
            assert(now.drop_last() =~= all.take(i as int));
            assert(now.last() == items@[i as int].deep_view());
            if i > 0 {
                assert(now[now.len() - 2] == items@[i - 1].deep_view());
            }
        }
        if i == 0 || !same_identity(&items[i], &items[i - 1]) {
            let ghost before = kept.deep_view();
            kept.push(items[i].duplicate());
            proof {
                assert(kept.deep_view() =~= before.push(now.last()));
                if i == 0 {
                    assert(kept.deep_view() =~= now);
                }
            }
        }
        i += 1;
    }
    assert(all.take(i as int) =~= all);
    kept
}

fn assemblies(nodes: &[XmlNode]) -> (found: Vec<AssemblyIdentity>)
    ensures
        found.deep_view() == without_repeats(
            sorted_by(
                identities(nodes.deep_view(), nodes.deep_view().len() as int),
                |assembly: AssemblyIdentityModel| assembly.name,
            ),
        ),
{
    let ghost key = |assembly: AssemblyIdentityModel| assembly.name;
    let mut sorted: Vec<AssemblyIdentity> = Vec::new();
    assert(sorted.deep_view() =~= Seq::<AssemblyIdentityModel>::empty());
    let mut i: usize = 0;
    while i < nodes.len()
        invariant
            i <= nodes.len(),
            key == (|assembly: AssemblyIdentityModel| assembly.name),
            sorted.deep_view() == sorted_by(identities(nodes.deep_view(), i as int), key),
        decreases nodes.len() - i,
    {
        assert(nodes.deep_view()[i as int] == nodes@[i as int].deep_view());
        match named_assembly(&nodes[i]) {
            None => {},
            Some(assembly) => {
                proof {
                    let now = identities(nodes.deep_view(), i + 1);
                    assert(now.drop_last() =~= identities(nodes.deep_view(), i as int));
                    assert((|model: AssemblyIdentityModel| AssemblyIdentity::key_of(model)) =~= key);
                }
                place_by(&mut sorted, assembly);
            },
        }
        i += 1;
    }
    drop_repeats(&sorted)
}

/// What the nodes of a manifest say.
pub fn manifest_from_nodes(nodes: &[XmlNode], source: ManifestSource) -> (manifest: ManifestInfo)
    ensures
        manifest.deep_view() == manifest_of(nodes.deep_view(), source),
{
    ManifestInfo {
        source,
        supported_os: supported_systems(nodes),
        dpi_awareness: scaling(nodes),
        assemblies: assemblies(nodes),
    }
}

// ---------------------------------------------------------------------------
// Text encodings of a manifest
// ---------------------------------------------------------------------------

/// The UTF-16 units of little-endian bytes.
pub open spec fn units_of(bytes: Seq<u8>) -> Seq<u16> {
    Seq::new(bytes.len() / 2, |i: int| le16(bytes, 2 * i))
}

/// The text of little-endian UTF-16 bytes.
pub open spec fn utf16_text(bytes: Seq<u8>) -> Option<Seq<char>> {
    if bytes.len() % 2 != 0 {
        None
    } else {
        decoded(units_of(bytes))
    }
}

/// The text of a manifest: UTF-16 behind a little-endian mark or where the
/// second byte is zero, else UTF-8. Big-endian UTF-16 is refused.
pub open spec fn manifest_text(bytes: Seq<u8>) -> Option<Seq<char>> {
    if bytes.len() >= 2 && bytes[0] == 0xff && bytes[1] == 0xfe {
        utf16_text(bytes.skip(2))
    } else if bytes.len() >= 2 && bytes[0] == 0xfe && bytes[1] == 0xff {
        None
    } else if bytes.len() >= 2 && bytes[1] == 0 {
        utf16_text(bytes)
    } else if valid_utf8(bytes) {
        Some(decode_utf8(bytes))
    } else {
        None
    }
}

/// What the bytes of a manifest say.
pub open spec fn manifest_info(bytes: Seq<u8>, source: ManifestSource) -> Option<ManifestInfoModel> {
    match manifest_text(bytes) {
        None => None,
        Some(text) => match xml_nodes(text) {
            Err(_) => None,
            Ok(nodes) => Some(manifest_of(nodes, source)),
        },
    }
}

/// What the manifest in the image says: `Some(None)` where it has none.
pub open spec fn embedded_manifest(
    bytes: Seq<u8>,
    sections: Seq<PeSectionModel>,
    directory: DataDirectory,
) -> Option<Option<ManifestInfoModel>> {
    match resource_blob(bytes, sections, directory, RT_MANIFEST) {
        None => None,
        Some(None) => Some(None),
        Some(Some(blob)) => match manifest_info(blob, ManifestSource::Embedded) {
            None => None,
            Some(manifest) => Some(Some(manifest)),
        },
    }
}

/// The text of little-endian UTF-16 bytes.
pub fn decode_utf16(bytes: &[u8]) -> (outcome: AppResult<String>)
    ensures
        agrees(outcome, ReasonCode::RcPeParseInvalid, utf16_text(bytes@)),
{
    if bytes.len() % 2 != 0 {
        return invalid("UTF-16 payload has an odd byte length");
    }
    let mut units: Vec<u16> = Vec::new();
    while units.len() < bytes.len() / 2
        invariant
            bytes.len() % 2 == 0,
            units.len() <= bytes.len() / 2,
            forall|i: int| 0 <= i < units.len() ==> units@[i] == le16(bytes@, 2 * i),
        decreases bytes.len() - units.len(),
    {
        let at: usize = 2 * units.len();
        units.push(bytes[at] as u16 + 0x100 * (bytes[at + 1] as u16));
    }
    assert(units@ =~= units_of(bytes@));
    match decode(&units) {
        Some(text) => Ok(text),
        None => invalid_for(
            "invalid UTF-16 payload",
            "invalid utf-16: lone surrogate found".to_owned(),
        ),
    }
}

/// The text of a manifest.
pub fn decode_manifest_bytes(bytes: &[u8]) -> (outcome: AppResult<String>)
    ensures
        agrees(outcome, ReasonCode::RcPeParseInvalid, manifest_text(bytes@)),
{
    if bytes.len() >= 2 && bytes[0] == 0xff && bytes[1] == 0xfe {
        let rest: &[u8] = vstd::slice::slice_subrange(bytes, 2, bytes.len());
        assert(rest@ =~= bytes@.skip(2));
        return decode_utf16(rest);
    }
    if bytes.len() >= 2 && bytes[0] == 0xfe && bytes[1] == 0xff {
        return invalid("big-endian UTF-16 manifests are not supported");
    }
    if bytes.len() >= 2 && bytes[1] == 0 {
        return decode_utf16(bytes);
    }
    match decode_text(bytes) {
        Ok(text) => Ok(text),
        Err(fault) => invalid_for("manifest payload is not valid UTF-8", fault),
    }
}

/// What the bytes of a manifest say.
pub fn parse_manifest_bytes(bytes: &[u8], source: ManifestSource) -> (outcome: AppResult<
    ManifestInfo,
>)
    ensures
        agrees(outcome, ReasonCode::RcPeParseInvalid, manifest_info(bytes@, source)),
{
    match decode_manifest_bytes(bytes) {
        Err(error) => Err(error),
        Ok(text) => match read_xml(&text) {
            Err(fault) => invalid_for("failed to parse manifest XML", fault),
            Ok(nodes) => Ok(manifest_from_nodes(&nodes, source)),
        },
    }
}

/// What the manifest in the image says.
pub fn parse_embedded_manifest(
    bytes: &[u8],
    sections: &[PeSection],
    directories: &[DataDirectory],
) -> (outcome: AppResult<Option<ManifestInfo>>)
    ensures
        agrees(
            outcome,
            ReasonCode::RcPeParseInvalid,
            embedded_manifest(
                bytes@,
                sections.deep_view(),
                directory_entry(directories@, IMAGE_DIRECTORY_ENTRY_RESOURCE as int),
            ),
        ),
{
    match find_resource_blob(bytes, sections, directories, RT_MANIFEST) {
        Err(error) => Err(error),
        Ok(None) => Ok(None),
        Ok(Some(blob)) => {
            assert(blob.deep_view() =~= blob@);
            match parse_manifest_bytes(&blob, ManifestSource::Embedded) {
                Err(error) => Err(error),
                Ok(manifest) => Ok(Some(manifest)),
            }
        },
    }
}

// ---------------------------------------------------------------------------
// Binding redirects
// ---------------------------------------------------------------------------

/// The text of an attribute; empty where the attribute is missing.
pub open spec fn attribute_or_empty(node: XmlNodeModel, name: Seq<char>) -> Seq<char> {
    match attribute_value(node.2, name) {
        Some(value) => value,
        None => Seq::empty(),
    }
}

/// The redirect that a node declares.
pub open spec fn redirect(node: XmlNodeModel) -> BindingRedirectModel {
    BindingRedirectModel {
        name: attribute_or_empty(node, "name"@),
        public_key_token: attribute_or_empty(node, "publicKeyToken"@),
        version: attribute_or_empty(node, "version"@),
        culture: attribute_or_empty(node, "culture"@),
    }
}

/// The redirects that the first `count` nodes declare.
pub open spec fn redirects(nodes: Seq<XmlNodeModel>, count: int) -> Seq<BindingRedirectModel>
    decreases count,
{
    if count <= 0 {
        Seq::empty()
    } else if nodes[count - 1].0 == "bindingRedirect"@ {
        redirects(nodes, count - 1).push(redirect(nodes[count - 1]))
    } else {
        redirects(nodes, count - 1)
    }
}

fn text_or_empty(node: &XmlNode, name: &str) -> (text: String)
    ensures
        text@ == attribute_or_empty(node.deep_view(), name@),
{
    match attribute(node, name) {
        Some(value) => value,
        None => String::new(),
    }
}

/// The redirects that the nodes of a manifest declare.
pub fn redirects_from_nodes(nodes: &[XmlNode]) -> (found: Vec<BindingRedirect>)
    ensures
        found.deep_view() == redirects(nodes.deep_view(), nodes.deep_view().len() as int),
{
    let mut found: Vec<BindingRedirect> = Vec::new();
    assert(found.deep_view() =~= Seq::<BindingRedirectModel>::empty());
    let mut i: usize = 0;
    while i < nodes.len()
        invariant
            i <= nodes.len(),
            found.deep_view() == redirects(nodes.deep_view(), i as int),
        decreases nodes.len() - i,
    {
        let node: &XmlNode = &nodes[i];
        assert(nodes.deep_view()[i as int] == node.deep_view());
        if same_text(&node.name, "bindingRedirect") {
            let entry = BindingRedirect {
                name: text_or_empty(node, "name"),
                public_key_token: text_or_empty(node, "publicKeyToken"),
                version: text_or_empty(node, "version"),
                culture: text_or_empty(node, "culture"),
            };
            let ghost before = found.deep_view();
            found.push(entry);
            assert(found.deep_view() =~= before.push(entry.deep_view()));
        }
        i += 1;
    }
    found
}

/// The redirects that a manifest declares; a text that is not well-formed XML
/// declares none.
pub fn parse_binding_redirects(xml: &str) -> (found: Vec<BindingRedirect>)
    ensures
        found.deep_view() == (match xml_nodes(xml@) {
            Err(_) => Seq::empty(),
            Ok(nodes) => redirects(nodes, nodes.len() as int),
        }),
{
    match read_xml(xml) {
        Err(_) => {
            let none: Vec<BindingRedirect> = Vec::new();
            assert(none.deep_view() =~= Seq::<BindingRedirectModel>::empty());
            none
        },
        Ok(nodes) => redirects_from_nodes(&nodes),
    }
}

/// An attribute has the value of the first one of its name that has no
/// namespace.
pub proof fn lemma_attribute_value(attributes: Seq<XmlAttributeModel>, name: Seq<char>)
    ensures
        match attribute_value(attributes, name) {
            Some(value) => exists|i: int| is_attribute(attributes, name, i) && attributes[i].2
                == value,
            None => forall|i: int|
                0 <= i < attributes.len() ==> !((#[trigger] attributes[i]).0 is None
                    && attributes[i].1 == name),
        },
    decreases attributes.len(),
{
    if attributes.len() > 0 {
        if attributes[0].0 is None && attributes[0].1 == name {
            assert(is_attribute(attributes, name, 0));
        } else {
            let rest = attributes.drop_first();
            lemma_attribute_value(rest, name);
            match attribute_value(rest, name) {
                Some(value) => {
                    let i = choose|i: int| is_attribute(rest, name, i) && rest[i].2 == value;
                    assert forall|j: int| 0 <= j < i + 1 implies !((
                    #[trigger] attributes[j]).0 is None && attributes[j].1 == name) by {
                        if j > 0 {
                            assert(rest[j - 1] == attributes[j]);
                        }
                    }
                    assert(is_attribute(attributes, name, i + 1));
                },
                None => {
                    assert forall|i: int| 0 <= i < attributes.len() implies !((
                    #[trigger] attributes[i]).0 is None && attributes[i].1 == name) by {
                        if i > 0 {
                            assert(rest[i - 1] == attributes[i]);
                        }
                    }
                },
            }
        }
    }
}

/// Attribute `i` is the first of the name without a namespace.
pub open spec fn is_attribute(attributes: Seq<XmlAttributeModel>, name: Seq<char>, i: int) -> bool {
    &&& 0 <= i < attributes.len()
    &&& attributes[i].0 is None
    &&& attributes[i].1 == name
    &&& forall|j: int|
        0 <= j < i ==> !((#[trigger] attributes[j]).0 is None && attributes[j].1 == name)
}

/// The systems that a manifest supports are the numbers of its elements of that
/// name, each once and in order; its assemblies are those that elements
/// identify; and its scaling is what the first element on that holds.
pub proof fn lemma_manifest_of(nodes: Seq<XmlNodeModel>, source: ManifestSource)
    ensures
        manifest_of(nodes, source).source == source,
        ascending(manifest_of(nodes, source).supported_os),
        forall|id: Seq<char>| #[trigger]
            manifest_of(nodes, source).supported_os.contains(id) <==> exists|i: int|
                0 <= i < nodes.len() && supported_id(#[trigger] nodes[i]) == Some(id),
        forall|assembly: AssemblyIdentityModel| #[trigger]
            manifest_of(nodes, source).assemblies.contains(assembly) <==> exists|i: int|
                0 <= i < nodes.len() && identity(#[trigger] nodes[i]) == Some(assembly),
        match manifest_of(nodes, source).dpi_awareness {
            Some(word) => exists|i: int| is_scaling(nodes, i) && word == trimmed(nodes[i].1->0),
            None => forall|i: int|
                0 <= i < nodes.len() ==> !(is_dpi_node(#[trigger] nodes[i])
                    && nodes[i].1 is Some),
        },
{
    let count = nodes.len() as int;
    lemma_sorted_once(supported_ids(nodes, count));
    lemma_supported_ids(nodes, count);
    lemma_identities(nodes, count);
    let found = identities(nodes, count);
    let key = |assembly: AssemblyIdentityModel| assembly.name;
    let sorted = sorted_by(found, key);
    lemma_sorted_by(found, key);
    lemma_without_repeats(sorted);
    assert forall|assembly: AssemblyIdentityModel| #[trigger]
        without_repeats(sorted).contains(assembly) <==> found.contains(assembly) by {
        sorted.to_multiset_ensures();
        found.to_multiset_ensures();
        assert(sorted.contains(assembly) <==> sorted.to_multiset().count(assembly) > 0);
        assert(found.contains(assembly) <==> found.to_multiset().count(assembly) > 0);
    }
    lemma_scaling(nodes);
}

/// Node `i` is the first on scaling that holds a text.
pub open spec fn is_scaling(nodes: Seq<XmlNodeModel>, i: int) -> bool {
    &&& 0 <= i < nodes.len()
    &&& nodes[i].0 == "dpiAware"@ || nodes[i].0 == "dpiAwareness"@
    &&& nodes[i].1 is Some
    &&& forall|j: int| 0 <= j < i ==> !(is_dpi_node(#[trigger] nodes[j]) && nodes[j].1 is Some)
}

proof fn lemma_scaling(nodes: Seq<XmlNodeModel>)
    ensures
        match dpi_awareness(nodes) {
            Some(word) => exists|i: int| is_scaling(nodes, i) && word == trimmed(nodes[i].1->0),
            None => forall|i: int|
                0 <= i < nodes.len() ==> !(is_dpi_node(#[trigger] nodes[i])
                    && nodes[i].1 is Some),
        },
    decreases nodes.len(),
{
    if nodes.len() > 0 {
        if is_dpi_node(nodes[0]) && nodes[0].1 is Some {
            assert(is_scaling(nodes, 0));
        } else {
            let rest = nodes.drop_first();
            lemma_scaling(rest);
            match dpi_awareness(rest) {
                Some(word) => {
                    let i = choose|i: int| is_scaling(rest, i) && word == trimmed(rest[i].1->0);
                    assert forall|j: int| 0 <= j < i + 1 implies !(is_dpi_node(
                        #[trigger] nodes[j],
                    ) && nodes[j].1 is Some) by {
                        if j > 0 {
                            assert(rest[j - 1] == nodes[j]);
                        }
                    }
                    assert(is_scaling(nodes, i + 1));
                },
                None => {
                    assert forall|i: int| 0 <= i < nodes.len() implies !(is_dpi_node(
                        #[trigger] nodes[i],
                    ) && nodes[i].1 is Some) by {
                        if i > 0 {
                            assert(rest[i - 1] == nodes[i]);
                        }
                    }
                },
            }
        }
    }
}

proof fn lemma_supported_ids(nodes: Seq<XmlNodeModel>, count: int)
    requires
        0 <= count <= nodes.len(),
    ensures
        forall|id: Seq<char>| #[trigger]
            supported_ids(nodes, count).contains(id) <==> exists|i: int|
                0 <= i < count && supported_id(#[trigger] nodes[i]) == Some(id),
    decreases count,
{
    if count > 0 {
        lemma_supported_ids(nodes, count - 1);
        let before = supported_ids(nodes, count - 1);
        let after = supported_ids(nodes, count);
        assert forall|id: Seq<char>| #[trigger] after.contains(id) <==> exists|i: int|
            0 <= i < count && supported_id(#[trigger] nodes[i]) == Some(id) by {
            if after.contains(id) {
                let k = choose|k: int| 0 <= k < after.len() && after[k] == id;
                if k < before.len() {
                    assert(before[k] == id);
                    assert(before.contains(id));
                    let i = choose|i: int|
                        0 <= i < count - 1 && supported_id(#[trigger] nodes[i]) == Some(id);
                    assert(supported_id(nodes[i]) == Some(id));
                } else {
                    assert(supported_id(nodes[count - 1]) == Some(id));
                }
            }
            if exists|i: int| 0 <= i < count && supported_id(#[trigger] nodes[i]) == Some(id) {
                let i = choose|i: int|
                    0 <= i < count && supported_id(#[trigger] nodes[i]) == Some(id);
                if i < count - 1 {
                    assert(before.contains(id));
                    let k = choose|k: int| 0 <= k < before.len() && before[k] == id;
                    assert(after[k] == id);
                } else {
                    assert(after[before.len() as int] == id);
                }
            }
        }
    }
}

proof fn lemma_identities(nodes: Seq<XmlNodeModel>, count: int)
    requires
        0 <= count <= nodes.len(),
    ensures
        forall|assembly: AssemblyIdentityModel| #[trigger]
            identities(nodes, count).contains(assembly) <==> exists|i: int|
                0 <= i < count && identity(#[trigger] nodes[i]) == Some(assembly),
    decreases count,
{
    if count > 0 {
        lemma_identities(nodes, count - 1);
        let before = identities(nodes, count - 1);
        let after = identities(nodes, count);
        assert forall|assembly: AssemblyIdentityModel| #[trigger]
            after.contains(assembly) <==> exists|i: int|
                0 <= i < count && identity(#[trigger] nodes[i]) == Some(assembly) by {
            if after.contains(assembly) {
                let k = choose|k: int| 0 <= k < after.len() && after[k] == assembly;
                if k < before.len() {
                    assert(before[k] == assembly);
                    assert(before.contains(assembly));
                    let i = choose|i: int|
                        0 <= i < count - 1 && identity(#[trigger] nodes[i]) == Some(assembly);
                    assert(identity(nodes[i]) == Some(assembly));
                } else {
                    assert(identity(nodes[count - 1]) == Some(assembly));
                }
            }
            if exists|i: int| 0 <= i < count && identity(#[trigger] nodes[i]) == Some(assembly) {
                let i = choose|i: int|
                    0 <= i < count && identity(#[trigger] nodes[i]) == Some(assembly);
                if i < count - 1 {
                    assert(before.contains(assembly));
                    let k = choose|k: int| 0 <= k < before.len() && before[k] == assembly;
                    assert(after[k] == assembly);
                } else {
                    assert(after[before.len() as int] == assembly);
                }
            }
        }
    }
}

/// An element of the given name with a name is an assembly with what its
/// attributes say of it; one without a name is none.
pub proof fn lemma_identity(node: XmlNodeModel)
    ensures
        identity(node) is Some <==> node.0 == "assemblyIdentity"@ && attribute_value(
            node.2,
            "name"@,
        ) is Some,
        identity(node) matches Some(assembly) ==> {
            &&& attribute_value(node.2, "name"@) == Some(assembly.name)
            &&& attribute_value(node.2, "version"@) == assembly.version
            &&& attribute_value(node.2, "processorArchitecture"@)
                == assembly.processor_architecture
            &&& attribute_value(node.2, "publicKeyToken"@) == assembly.public_key_token
            &&& attribute_value(node.2, "type"@) == assembly.type_attr
        },
        supported_id(node) is Some ==> node.0 == "supportedOS"@,
        node.0 == "supportedOS"@ && attribute_value(node.2, "Id"@) is Some ==> supported_id(node)
            == attribute_value(node.2, "Id"@),
        node.0 == "supportedOS"@ && attribute_value(node.2, "Id"@) is None ==> supported_id(node)
            == attribute_value(node.2, "id"@),
{
}

/// The bytes of a text in UTF-16.
pub open spec fn utf16_bytes(text: Seq<char>) -> Seq<u8> {
    Seq::new(
        2 * encoded(text).len(),
        |i: int|
            if i % 2 == 0 {
                (encoded(text)[i / 2] % 0x100) as u8
            } else {
                (encoded(text)[i / 2] / 0x100) as u8
            },
    )
}

/// A manifest is read as it was written: in UTF-16 with the mark of its order
/// in front or, where the first character is one of ASCII, without it; or else
/// in UTF-8. The other order of bytes is refused.
pub proof fn lemma_manifest_text_reads_back(text: Seq<char>)
    ensures
        manifest_text(seq![0xffu8, 0xfeu8] + utf16_bytes(text)) == Some(text),
        text.len() > 0 && 0 < text[0] as u32 && (text[0] as u32) < 0x80 ==> manifest_text(
            utf16_bytes(text),
        ) == Some(text),
        encode_utf8(text).len() < 2 || encode_utf8(text)[1] != 0 && encode_utf8(text)[0] < 0xfe
            ==> manifest_text(encode_utf8(text)) == Some(text),
        manifest_text(seq![0xfeu8, 0xffu8] + utf16_bytes(text)) is None,
{
    let units = encoded(text);
    let bytes = utf16_bytes(text);
    assert(units_of(bytes) =~= units) by {
        assert forall|i: int| 0 <= i < units.len() implies units_of(bytes)[i] == units[i] by {
            assert(2 * i / 2 == i && (2 * i + 1) / 2 == i);
            assert(bytes[2 * i] == units[i] % 0x100);
            assert(bytes[2 * i + 1] == units[i] / 0x100);
        }
    }
    lemma_decoded_encoded(text);
    let marked = seq![0xffu8, 0xfeu8] + bytes;
    assert(marked[0] == 0xff && marked[1] == 0xfe);
    assert(marked.skip(2) =~= bytes);
    let turned = seq![0xfeu8, 0xffu8] + bytes;
    assert(turned[0] == 0xfe && turned[1] == 0xff);
    if text.len() > 0 && 0 < text[0] as u32 && (text[0] as u32) < 0x80 {
        lemma_first_unit(text);
        assert(bytes[0] == units[0] % 0x100 && bytes[1] == units[0] / 0x100);
    }
    vstd::utf8::encode_utf8_valid_utf8(text);
    vstd::utf8::encode_utf8_decode_utf8(text);
}

proof fn lemma_first_unit(text: Seq<char>)
    requires
        text.len() > 0,
        (text[0] as u32) <= 0xffff,
    ensures
        encoded(text).len() > 0,
        encoded(text)[0] as u32 == text[0] as u32,
    decreases text.len(),
{
    if text.len() > 1 {
        lemma_first_unit(text.drop_last());
    } else {
        assert(encoded(text.drop_last()) =~= Seq::<u16>::empty());
    }
}

/// There is one redirect for every element of that name, in their order, and it
/// holds the values of that element's attributes, nothing for a missing one.
pub proof fn lemma_redirects(nodes: Seq<XmlNodeModel>, node: XmlNodeModel)
    ensures
        ({
            let before = redirects(nodes, nodes.len() as int);
            let after = redirects(nodes.push(node), nodes.len() as int + 1);
            &&& node.0 != "bindingRedirect"@ ==> after == before
            &&& node.0 == "bindingRedirect"@ ==> {
                &&& after.len() == before.len() + 1
                &&& after.drop_last() == before
                &&& attribute_value(node.2, "name"@) matches Some(value) ==> after.last().name
                    == value
                &&& attribute_value(node.2, "name"@) is None ==> after.last().name.len() == 0
                &&& attribute_value(node.2, "publicKeyToken"@) matches Some(value)
                    ==> after.last().public_key_token == value
                &&& attribute_value(node.2, "version"@) matches Some(value)
                    ==> after.last().version == value
                &&& attribute_value(node.2, "culture"@) matches Some(value)
                    ==> after.last().culture == value
            }
        }),
{
    lemma_redirects_alike(nodes, nodes.push(node), nodes.len() as int);
    let before = redirects(nodes, nodes.len() as int);
    let after = redirects(nodes.push(node), nodes.len() as int + 1);
    if node.0 == "bindingRedirect"@ {
        assert(after.drop_last() =~= before);
    }
}

proof fn lemma_redirects_alike(few: Seq<XmlNodeModel>, many: Seq<XmlNodeModel>, count: int)
    requires
        0 <= count <= few.len(),
        count <= many.len(),
        forall|i: int| 0 <= i < count ==> few[i] == many[i],
    ensures
        redirects(few, count) == redirects(many, count),
    decreases count,
{
    if count > 0 {
        lemma_redirects_alike(few, many, count - 1);
    }
}

} // verus!
