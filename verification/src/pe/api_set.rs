//! API sets: contract names that stand for a library.
use crate::names::NameMap;
use crate::pe::modules::{
    lemma_normalized_twice, lemma_trimmed_of_tight, normalize_module_name, normalized,
};
use crate::text::{begins_with, has_prefix, lower};
use vstd::prelude::*;

verus! {

/// The beginnings of contract names and the libraries that implement them.
/// The first row that fits counts, so a longer beginning stands before a
/// shorter one that it begins with.
pub open spec fn contract_hosts() -> Seq<(Seq<char>, Seq<char>)> {
    seq![
        ("api-ms-win-core-registry"@, "advapi32.dll"@),
        ("api-ms-win-core-winrt-string"@, "combase.dll"@),
        ("api-ms-win-core-com-"@, "ole32.dll"@),
        ("api-ms-win-core-"@, "kernel32.dll"@),
        ("api-ms-win-crt-"@, "ucrtbase.dll"@),
        ("api-ms-win-security-"@, "advapi32.dll"@),
        ("api-ms-win-service-"@, "advapi32.dll"@),
        ("api-ms-win-eventing-"@, "advapi32.dll"@),
        ("api-ms-win-perf-"@, "advapi32.dll"@),
        ("api-ms-win-shell-"@, "shell32.dll"@),
        ("api-ms-win-com-"@, "ole32.dll"@),
        ("api-ms-win-ole-"@, "ole32.dll"@),
        ("ext-ms-win-ntuser-"@, "user32.dll"@),
        ("api-ms-win-rtf-"@, "user32.dll"@),
        ("api-ms-win-imm-"@, "user32.dll"@),
        ("api-ms-win-gdi-"@, "gdi32.dll"@),
        ("api-ms-win-mm-"@, "winmm.dll"@),
        ("api-ms-win-power-"@, "powrprof.dll"@),
        ("api-ms-win-psapi-"@, "psapi.dll"@),
        ("api-ms-win-shcore-"@, "shcore.dll"@),
        ("api-ms-win-sync-"@, "kernel32.dll"@),
        ("api-ms-win-realtime-"@, "kernel32.dll"@),
        ("api-ms-win-wer-"@, "kernel32.dll"@),
        ("api-ms-win-windows-"@, "kernel32.dll"@),
        ("api-ms-win-winrt-"@, "combase.dll"@),
        ("api-ms-win-rtcore-"@, "ntdll.dll"@),
        ("ext-ms-win-com-"@, "ole32.dll"@),
        ("ext-ms-win-kernel32-"@, "kernel32.dll"@),
        ("ext-ms-win-advapi32-"@, "advapi32.dll"@),
        ("ext-ms-win-gdi-"@, "gdi32.dll"@),
        ("ext-ms-win-shell-"@, "shell32.dll"@),
        ("ext-ms-win-ole32-"@, "ole32.dll"@),
        ("ext-ms-win-ucrt-"@, "ucrtbase.dll"@),
        ("ext-ms-win-uxtheme-"@, "uxtheme.dll"@),
        ("ext-ms-win-dwmapi-"@, "dwmapi.dll"@),
        ("ext-ms-win-authz-"@, "authz.dll"@),
        ("ext-ms-win-session-"@, "wtsapi32.dll"@),
        ("ext-ms-win-networking-wlanapi"@, "wlanapi.dll"@),
        ("ext-ms-win-clfs-"@, "clfsw32.dll"@),
        ("ext-ms-win-ntos-policy-"@, "advapi32.dll"@),
        ("ext-ms-win-feclient-"@, "feclient.dll"@),
        ("ext-ms-win-wcmconfig-"@, "wcmapi.dll"@),
        ("ext-ms-win-ntos-kernel-"@, "ntoskrnl.exe"@),
        ("ext-ms-win-rdg-"@, "rdgapi.dll"@),
        ("ext-ms-win-tsc-"@, "rdpend.dll"@),
    ]
}

/// The library of the first row from `index` on whose beginning `name` has;
/// `name` itself where there is none.
pub open spec fn host_from(rows: Seq<(Seq<char>, Seq<char>)>, name: Seq<char>, index: int) -> Seq<
    char,
>
    decreases rows.len() - index,
{
    if index < 0 || index >= rows.len() {
        name
    } else if begins_with(name, rows[index].0) {
        rows[index].1
    } else {
        host_from(rows, name, index + 1)
    }
}

/// The library that implements the named contract; a name that is no
/// contract stands for itself.
pub open spec fn contract_host(name: Seq<char>) -> Seq<char> {
    host_from(contract_hosts(), name, 0)
}

/// Of the core contracts those for the registry, for strings of the Windows
/// runtime and for COM have libraries of their own; all others stand for one.
pub proof fn lemma_core_contracts(name: Seq<char>)
    ensures
        begins_with(name, "api-ms-win-core-registry"@) ==> contract_host(name) == "advapi32.dll"@,
        begins_with(name, "api-ms-win-core-winrt-string"@) ==> contract_host(name)
            == "combase.dll"@,
        begins_with(name, "api-ms-win-core-com-"@) ==> contract_host(name) == "ole32.dll"@,
        ({
            &&& begins_with(name, "api-ms-win-core-"@)
            &&& !begins_with(name, "api-ms-win-core-registry"@)
            &&& !begins_with(name, "api-ms-win-core-winrt-string"@)
            &&& !begins_with(name, "api-ms-win-core-com-"@)
        }) ==> contract_host(name) == "kernel32.dll"@,
{
    reveal_strlit("api-ms-win-core-registry");
    reveal_strlit("api-ms-win-core-winrt-string");
    reveal_strlit("api-ms-win-core-com-");
    reveal_with_fuel(host_from, 5);
    let rows = contract_hosts();
    assert(rows[0] == ("api-ms-win-core-registry"@, "advapi32.dll"@));
    assert(rows[1] == ("api-ms-win-core-winrt-string"@, "combase.dll"@));
    assert(rows[2] == ("api-ms-win-core-com-"@, "ole32.dll"@));
    assert(rows[3] == ("api-ms-win-core-"@, "kernel32.dll"@));
    // The three differ in the character behind what they share.
    assert(begins_with(name, rows[0].0) ==> name[16] == 'r') by {
        if begins_with(name, rows[0].0) {
            assert(name.take(rows[0].0.len() as int)[16] == rows[0].0[16]);
        }
    }
    assert(begins_with(name, rows[1].0) ==> name[16] == 'w') by {
        if begins_with(name, rows[1].0) {
            assert(name.take(rows[1].0.len() as int)[16] == rows[1].0[16]);
        }
    }
    assert(begins_with(name, rows[2].0) ==> name[16] == 'c') by {
        if begins_with(name, rows[2].0) {
            assert(name.take(rows[2].0.len() as int)[16] == rows[2].0[16]);
        }
    }
}

fn contract_rows() -> (rows: Vec<(&'static str, &'static str)>)
    ensures
        rows@.len() == contract_hosts().len(),
        forall|i: int|
            0 <= i < rows@.len() ==> (#[trigger] rows@[i]).0@ == contract_hosts()[i].0 && rows@[i].1@
                == contract_hosts()[i].1,
{
    let mut rows: Vec<(&'static str, &'static str)> = Vec::new();
    rows.push(("api-ms-win-core-registry", "advapi32.dll"));
    rows.push(("api-ms-win-core-winrt-string", "combase.dll"));
    rows.push(("api-ms-win-core-com-", "ole32.dll"));
    rows.push(("api-ms-win-core-", "kernel32.dll"));
    rows.push(("api-ms-win-crt-", "ucrtbase.dll"));
    rows.push(("api-ms-win-security-", "advapi32.dll"));
    rows.push(("api-ms-win-service-", "advapi32.dll"));
    rows.push(("api-ms-win-eventing-", "advapi32.dll"));
    rows.push(("api-ms-win-perf-", "advapi32.dll"));
    rows.push(("api-ms-win-shell-", "shell32.dll"));
    rows.push(("api-ms-win-com-", "ole32.dll"));
    rows.push(("api-ms-win-ole-", "ole32.dll"));
    rows.push(("ext-ms-win-ntuser-", "user32.dll"));
    rows.push(("api-ms-win-rtf-", "user32.dll"));
    rows.push(("api-ms-win-imm-", "user32.dll"));
    rows.push(("api-ms-win-gdi-", "gdi32.dll"));
    rows.push(("api-ms-win-mm-", "winmm.dll"));
    rows.push(("api-ms-win-power-", "powrprof.dll"));
    rows.push(("api-ms-win-psapi-", "psapi.dll"));
    rows.push(("api-ms-win-shcore-", "shcore.dll"));
    rows.push(("api-ms-win-sync-", "kernel32.dll"));
    rows.push(("api-ms-win-realtime-", "kernel32.dll"));
    rows.push(("api-ms-win-wer-", "kernel32.dll"));
    rows.push(("api-ms-win-windows-", "kernel32.dll"));
    rows.push(("api-ms-win-winrt-", "combase.dll"));
    rows.push(("api-ms-win-rtcore-", "ntdll.dll"));
    rows.push(("ext-ms-win-com-", "ole32.dll"));
    rows.push(("ext-ms-win-kernel32-", "kernel32.dll"));
    rows.push(("ext-ms-win-advapi32-", "advapi32.dll"));
    rows.push(("ext-ms-win-gdi-", "gdi32.dll"));
    rows.push(("ext-ms-win-shell-", "shell32.dll"));
    rows.push(("ext-ms-win-ole32-", "ole32.dll"));
    rows.push(("ext-ms-win-ucrt-", "ucrtbase.dll"));
    rows.push(("ext-ms-win-uxtheme-", "uxtheme.dll"));
    rows.push(("ext-ms-win-dwmapi-", "dwmapi.dll"));
    rows.push(("ext-ms-win-authz-", "authz.dll"));
    rows.push(("ext-ms-win-session-", "wtsapi32.dll"));
    rows.push(("ext-ms-win-networking-wlanapi", "wlanapi.dll"));
    rows.push(("ext-ms-win-clfs-", "clfsw32.dll"));
    rows.push(("ext-ms-win-ntos-policy-", "advapi32.dll"));
    rows.push(("ext-ms-win-feclient-", "feclient.dll"));
    rows.push(("ext-ms-win-wcmconfig-", "wcmapi.dll"));
    rows.push(("ext-ms-win-ntos-kernel-", "ntoskrnl.exe"));
    rows.push(("ext-ms-win-rdg-", "rdgapi.dll"));
    rows.push(("ext-ms-win-tsc-", "rdpend.dll"));
    rows
}

/// Says which library implements a contract, after mappings of its own.
#[derive(Debug)]
pub struct ApiSetResolver {
    explicit: NameMap<String>,
}

impl Clone for ApiSetResolver {
    fn clone(&self) -> (copy: Self)
        ensures
            copy@ == self@,
    {
        let copy = ApiSetResolver { explicit: self.explicit.clone() };
        assert(copy@ =~= self@);
        copy
    }
}

impl View for ApiSetResolver {
    type V = Map<Seq<char>, Seq<char>>;

    /// The mappings that come before the built-in ones.
    closed spec fn view(&self) -> Map<Seq<char>, Seq<char>> {
        self.explicit@.map_values(|host: String| host@)
    }
}

/// The library that stands for `name` under the given mappings.
pub open spec fn resolved(explicit: Map<Seq<char>, Seq<char>>, name: Seq<char>) -> Seq<char> {
    if explicit.contains_key(normalized(name)) {
        explicit[normalized(name)]
    } else {
        contract_host(normalized(name))
    }
}

/// The name begins as the names of contracts do.
pub open spec fn names_contract(name: Seq<char>) -> bool {
    begins_with(name, "api-ms-win-"@) || begins_with(name, "ext-ms-win-"@)
}

/// The name of a library as modules are known: small letters, digits and dots
/// alone, among them a dot, and no contract.
spec fn library_name(name: Seq<char>) -> bool {
    &&& name.len() > 3 && name[3] != '-'
    &&& name.contains('.')
    &&& forall|i: int|
        0 <= i < name.len() ==> {
            let c = #[trigger] name[i];
            ('a' <= c && c <= 'z') || ('0' <= c && c <= '9') || c == '.'
        }
}

spec fn sound_row(row: (Seq<char>, Seq<char>)) -> bool {
    names_contract(row.0) && library_name(row.1)
}

proof fn lemma_library_names()
    ensures
        library_name("advapi32.dll"@),
        library_name("combase.dll"@),
        library_name("ole32.dll"@),
        library_name("kernel32.dll"@),
        library_name("ucrtbase.dll"@),
        library_name("shell32.dll"@),
        library_name("user32.dll"@),
        library_name("gdi32.dll"@),
        library_name("winmm.dll"@),
        library_name("powrprof.dll"@),
        library_name("psapi.dll"@),
        library_name("shcore.dll"@),
        library_name("ntdll.dll"@),
        library_name("uxtheme.dll"@),
        library_name("dwmapi.dll"@),
        library_name("authz.dll"@),
        library_name("wtsapi32.dll"@),
        library_name("wlanapi.dll"@),
        library_name("clfsw32.dll"@),
        library_name("feclient.dll"@),
        library_name("wcmapi.dll"@),
        library_name("ntoskrnl.exe"@),
        library_name("rdgapi.dll"@),
        library_name("rdpend.dll"@),
{
    assert(library_name("advapi32.dll"@)) by {
        reveal_strlit("advapi32.dll");
        assert("advapi32.dll"@[8] == '.');
    }
    assert(library_name("combase.dll"@)) by {
        reveal_strlit("combase.dll");
        assert("combase.dll"@[7] == '.');
    }
    assert(library_name("ole32.dll"@)) by {
        reveal_strlit("ole32.dll");
        assert("ole32.dll"@[5] == '.');
    }
    assert(library_name("kernel32.dll"@)) by {
        reveal_strlit("kernel32.dll");
        assert("kernel32.dll"@[8] == '.');
    }
    assert(library_name("ucrtbase.dll"@)) by {
        reveal_strlit("ucrtbase.dll");
        assert("ucrtbase.dll"@[8] == '.');
    }
    assert(library_name("shell32.dll"@)) by {
        reveal_strlit("shell32.dll");
        assert("shell32.dll"@[7] == '.');
    }
    assert(library_name("user32.dll"@)) by {
        reveal_strlit("user32.dll");
        assert("user32.dll"@[6] == '.');
    }
    assert(library_name("gdi32.dll"@)) by {
        reveal_strlit("gdi32.dll");
        assert("gdi32.dll"@[5] == '.');
    }
    assert(library_name("winmm.dll"@)) by {
        reveal_strlit("winmm.dll");
        assert("winmm.dll"@[5] == '.');
    }
    assert(library_name("powrprof.dll"@)) by {
        reveal_strlit("powrprof.dll");
        assert("powrprof.dll"@[8] == '.');
    }
    assert(library_name("psapi.dll"@)) by {
        reveal_strlit("psapi.dll");
        assert("psapi.dll"@[5] == '.');
    }
    assert(library_name("shcore.dll"@)) by {
        reveal_strlit("shcore.dll");
        assert("shcore.dll"@[6] == '.');
    }
    assert(library_name("ntdll.dll"@)) by {
        reveal_strlit("ntdll.dll");
        assert("ntdll.dll"@[5] == '.');
    }
    assert(library_name("uxtheme.dll"@)) by {
        reveal_strlit("uxtheme.dll");
        assert("uxtheme.dll"@[7] == '.');
    }
    assert(library_name("dwmapi.dll"@)) by {
        reveal_strlit("dwmapi.dll");
        assert("dwmapi.dll"@[6] == '.');
    }
    assert(library_name("authz.dll"@)) by {
        reveal_strlit("authz.dll");
        assert("authz.dll"@[5] == '.');
    }
    assert(library_name("wtsapi32.dll"@)) by {
        reveal_strlit("wtsapi32.dll");
        assert("wtsapi32.dll"@[8] == '.');
    }
    assert(library_name("wlanapi.dll"@)) by {
        reveal_strlit("wlanapi.dll");
        assert("wlanapi.dll"@[7] == '.');
    }
    assert(library_name("clfsw32.dll"@)) by {
        reveal_strlit("clfsw32.dll");
        assert("clfsw32.dll"@[7] == '.');
    }
    assert(library_name("feclient.dll"@)) by {
        reveal_strlit("feclient.dll");
        assert("feclient.dll"@[8] == '.');
    }
    assert(library_name("wcmapi.dll"@)) by {
        reveal_strlit("wcmapi.dll");
        assert("wcmapi.dll"@[6] == '.');
    }
    assert(library_name("ntoskrnl.exe"@)) by {
        reveal_strlit("ntoskrnl.exe");
        assert("ntoskrnl.exe"@[8] == '.');
    }
    assert(library_name("rdgapi.dll"@)) by {
        reveal_strlit("rdgapi.dll");
        assert("rdgapi.dll"@[6] == '.');
    }
    assert(library_name("rdpend.dll"@)) by {
        reveal_strlit("rdpend.dll");
        assert("rdpend.dll"@[6] == '.');
    }
}

proof fn lemma_contract_names()
    ensures
        names_contract("api-ms-win-core-registry"@),
        names_contract("api-ms-win-core-winrt-string"@),
        names_contract("api-ms-win-core-com-"@),
        names_contract("api-ms-win-core-"@),
        names_contract("api-ms-win-crt-"@),
        names_contract("api-ms-win-security-"@),
        names_contract("api-ms-win-service-"@),
        names_contract("api-ms-win-eventing-"@),
        names_contract("api-ms-win-perf-"@),
        names_contract("api-ms-win-shell-"@),
        names_contract("api-ms-win-com-"@),
        names_contract("api-ms-win-ole-"@),
        names_contract("ext-ms-win-ntuser-"@),
        names_contract("api-ms-win-rtf-"@),
        names_contract("api-ms-win-imm-"@),
        names_contract("api-ms-win-gdi-"@),
        names_contract("api-ms-win-mm-"@),
        names_contract("api-ms-win-power-"@),
        names_contract("api-ms-win-psapi-"@),
        names_contract("api-ms-win-shcore-"@),
        names_contract("api-ms-win-sync-"@),
        names_contract("api-ms-win-realtime-"@),
        names_contract("api-ms-win-wer-"@),
        names_contract("api-ms-win-windows-"@),
        names_contract("api-ms-win-winrt-"@),
        names_contract("api-ms-win-rtcore-"@),
        names_contract("ext-ms-win-com-"@),
        names_contract("ext-ms-win-kernel32-"@),
        names_contract("ext-ms-win-advapi32-"@),
        names_contract("ext-ms-win-gdi-"@),
        names_contract("ext-ms-win-shell-"@),
        names_contract("ext-ms-win-ole32-"@),
        names_contract("ext-ms-win-ucrt-"@),
        names_contract("ext-ms-win-uxtheme-"@),
        names_contract("ext-ms-win-dwmapi-"@),
        names_contract("ext-ms-win-authz-"@),
        names_contract("ext-ms-win-session-"@),
        names_contract("ext-ms-win-networking-wlanapi"@),
        names_contract("ext-ms-win-clfs-"@),
        names_contract("ext-ms-win-ntos-policy-"@),
        names_contract("ext-ms-win-feclient-"@),
        names_contract("ext-ms-win-wcmconfig-"@),
        names_contract("ext-ms-win-ntos-kernel-"@),
        names_contract("ext-ms-win-rdg-"@),
        names_contract("ext-ms-win-tsc-"@),
{
    reveal_strlit("api-ms-win-");
    reveal_strlit("ext-ms-win-");
    assert(names_contract("api-ms-win-core-registry"@)) by {
        reveal_strlit("api-ms-win-core-registry");
        assert("api-ms-win-core-registry"@.take(11) =~= "api-ms-win-"@);
    }
    assert(names_contract("api-ms-win-core-winrt-string"@)) by {
        reveal_strlit("api-ms-win-core-winrt-string");
        assert("api-ms-win-core-winrt-string"@.take(11) =~= "api-ms-win-"@);
    }
    assert(names_contract("api-ms-win-core-com-"@)) by {
        reveal_strlit("api-ms-win-core-com-");
        assert("api-ms-win-core-com-"@.take(11) =~= "api-ms-win-"@);
    }
    assert(names_contract("api-ms-win-core-"@)) by {
        reveal_strlit("api-ms-win-core-");
        assert("api-ms-win-core-"@.take(11) =~= "api-ms-win-"@);
    }
    assert(names_contract("api-ms-win-crt-"@)) by {
        reveal_strlit("api-ms-win-crt-");
        assert("api-ms-win-crt-"@.take(11) =~= "api-ms-win-"@);
    }
    assert(names_contract("api-ms-win-security-"@)) by {
        reveal_strlit("api-ms-win-security-");
        assert("api-ms-win-security-"@.take(11) =~= "api-ms-win-"@);
    }
    assert(names_contract("api-ms-win-service-"@)) by {
        reveal_strlit("api-ms-win-service-");
        assert("api-ms-win-service-"@.take(11) =~= "api-ms-win-"@);
    }
    assert(names_contract("api-ms-win-eventing-"@)) by {
        reveal_strlit("api-ms-win-eventing-");
        assert("api-ms-win-eventing-"@.take(11) =~= "api-ms-win-"@);
    }
    assert(names_contract("api-ms-win-perf-"@)) by {
        reveal_strlit("api-ms-win-perf-");
        assert("api-ms-win-perf-"@.take(11) =~= "api-ms-win-"@);
    }
    assert(names_contract("api-ms-win-shell-"@)) by {
        reveal_strlit("api-ms-win-shell-");
        assert("api-ms-win-shell-"@.take(11) =~= "api-ms-win-"@);
    }
    assert(names_contract("api-ms-win-com-"@)) by {
        reveal_strlit("api-ms-win-com-");
        assert("api-ms-win-com-"@.take(11) =~= "api-ms-win-"@);
    }
    assert(names_contract("api-ms-win-ole-"@)) by {
        reveal_strlit("api-ms-win-ole-");
        assert("api-ms-win-ole-"@.take(11) =~= "api-ms-win-"@);
    }
    assert(names_contract("ext-ms-win-ntuser-"@)) by {
        reveal_strlit("ext-ms-win-ntuser-");
        assert("ext-ms-win-ntuser-"@.take(11) =~= "ext-ms-win-"@);
    }
    assert(names_contract("api-ms-win-rtf-"@)) by {
        reveal_strlit("api-ms-win-rtf-");
        assert("api-ms-win-rtf-"@.take(11) =~= "api-ms-win-"@);
    }
    assert(names_contract("api-ms-win-imm-"@)) by {
        reveal_strlit("api-ms-win-imm-");
        assert("api-ms-win-imm-"@.take(11) =~= "api-ms-win-"@);
    }
    assert(names_contract("api-ms-win-gdi-"@)) by {
        reveal_strlit("api-ms-win-gdi-");
        assert("api-ms-win-gdi-"@.take(11) =~= "api-ms-win-"@);
    }
    assert(names_contract("api-ms-win-mm-"@)) by {
        reveal_strlit("api-ms-win-mm-");
        assert("api-ms-win-mm-"@.take(11) =~= "api-ms-win-"@);
    }
    assert(names_contract("api-ms-win-power-"@)) by {
        reveal_strlit("api-ms-win-power-");
        assert("api-ms-win-power-"@.take(11) =~= "api-ms-win-"@);
    }
    assert(names_contract("api-ms-win-psapi-"@)) by {
        reveal_strlit("api-ms-win-psapi-");
        assert("api-ms-win-psapi-"@.take(11) =~= "api-ms-win-"@);
    }
    assert(names_contract("api-ms-win-shcore-"@)) by {
        reveal_strlit("api-ms-win-shcore-");
        assert("api-ms-win-shcore-"@.take(11) =~= "api-ms-win-"@);
    }
    assert(names_contract("api-ms-win-sync-"@)) by {
        reveal_strlit("api-ms-win-sync-");
        assert("api-ms-win-sync-"@.take(11) =~= "api-ms-win-"@);
    }
    assert(names_contract("api-ms-win-realtime-"@)) by {
        reveal_strlit("api-ms-win-realtime-");
        assert("api-ms-win-realtime-"@.take(11) =~= "api-ms-win-"@);
    }
    assert(names_contract("api-ms-win-wer-"@)) by {
        reveal_strlit("api-ms-win-wer-");
        assert("api-ms-win-wer-"@.take(11) =~= "api-ms-win-"@);
    }
    assert(names_contract("api-ms-win-windows-"@)) by {
        reveal_strlit("api-ms-win-windows-");
        assert("api-ms-win-windows-"@.take(11) =~= "api-ms-win-"@);
    }
    assert(names_contract("api-ms-win-winrt-"@)) by {
        reveal_strlit("api-ms-win-winrt-");
        assert("api-ms-win-winrt-"@.take(11) =~= "api-ms-win-"@);
    }
    assert(names_contract("api-ms-win-rtcore-"@)) by {
        reveal_strlit("api-ms-win-rtcore-");
        assert("api-ms-win-rtcore-"@.take(11) =~= "api-ms-win-"@);
    }
    assert(names_contract("ext-ms-win-com-"@)) by {
        reveal_strlit("ext-ms-win-com-");
        assert("ext-ms-win-com-"@.take(11) =~= "ext-ms-win-"@);
    }
    assert(names_contract("ext-ms-win-kernel32-"@)) by {
        reveal_strlit("ext-ms-win-kernel32-");
        assert("ext-ms-win-kernel32-"@.take(11) =~= "ext-ms-win-"@);
    }
    assert(names_contract("ext-ms-win-advapi32-"@)) by {
        reveal_strlit("ext-ms-win-advapi32-");
        assert("ext-ms-win-advapi32-"@.take(11) =~= "ext-ms-win-"@);
    }
    assert(names_contract("ext-ms-win-gdi-"@)) by {
        reveal_strlit("ext-ms-win-gdi-");
        assert("ext-ms-win-gdi-"@.take(11) =~= "ext-ms-win-"@);
    }
    assert(names_contract("ext-ms-win-shell-"@)) by {
        reveal_strlit("ext-ms-win-shell-");
        assert("ext-ms-win-shell-"@.take(11) =~= "ext-ms-win-"@);
    }
    assert(names_contract("ext-ms-win-ole32-"@)) by {
        reveal_strlit("ext-ms-win-ole32-");
        assert("ext-ms-win-ole32-"@.take(11) =~= "ext-ms-win-"@);
    }
    assert(names_contract("ext-ms-win-ucrt-"@)) by {
        reveal_strlit("ext-ms-win-ucrt-");
        assert("ext-ms-win-ucrt-"@.take(11) =~= "ext-ms-win-"@);
    }
    assert(names_contract("ext-ms-win-uxtheme-"@)) by {
        reveal_strlit("ext-ms-win-uxtheme-");
        assert("ext-ms-win-uxtheme-"@.take(11) =~= "ext-ms-win-"@);
    }
    assert(names_contract("ext-ms-win-dwmapi-"@)) by {
        reveal_strlit("ext-ms-win-dwmapi-");
        assert("ext-ms-win-dwmapi-"@.take(11) =~= "ext-ms-win-"@);
    }
    assert(names_contract("ext-ms-win-authz-"@)) by {
        reveal_strlit("ext-ms-win-authz-");
        assert("ext-ms-win-authz-"@.take(11) =~= "ext-ms-win-"@);
    }
    assert(names_contract("ext-ms-win-session-"@)) by {
        reveal_strlit("ext-ms-win-session-");
        assert("ext-ms-win-session-"@.take(11) =~= "ext-ms-win-"@);
    }
    assert(names_contract("ext-ms-win-networking-wlanapi"@)) by {
        reveal_strlit("ext-ms-win-networking-wlanapi");
        assert("ext-ms-win-networking-wlanapi"@.take(11) =~= "ext-ms-win-"@);
    }
    assert(names_contract("ext-ms-win-clfs-"@)) by {
        reveal_strlit("ext-ms-win-clfs-");
        assert("ext-ms-win-clfs-"@.take(11) =~= "ext-ms-win-"@);
    }
    assert(names_contract("ext-ms-win-ntos-policy-"@)) by {
        reveal_strlit("ext-ms-win-ntos-policy-");
        assert("ext-ms-win-ntos-policy-"@.take(11) =~= "ext-ms-win-"@);
    }
    assert(names_contract("ext-ms-win-feclient-"@)) by {
        reveal_strlit("ext-ms-win-feclient-");
        assert("ext-ms-win-feclient-"@.take(11) =~= "ext-ms-win-"@);
    }
    assert(names_contract("ext-ms-win-wcmconfig-"@)) by {
        reveal_strlit("ext-ms-win-wcmconfig-");
        assert("ext-ms-win-wcmconfig-"@.take(11) =~= "ext-ms-win-"@);
    }
    assert(names_contract("ext-ms-win-ntos-kernel-"@)) by {
        reveal_strlit("ext-ms-win-ntos-kernel-");
        assert("ext-ms-win-ntos-kernel-"@.take(11) =~= "ext-ms-win-"@);
    }
    assert(names_contract("ext-ms-win-rdg-"@)) by {
        reveal_strlit("ext-ms-win-rdg-");
        assert("ext-ms-win-rdg-"@.take(11) =~= "ext-ms-win-"@);
    }
    assert(names_contract("ext-ms-win-tsc-"@)) by {
        reveal_strlit("ext-ms-win-tsc-");
        assert("ext-ms-win-tsc-"@.take(11) =~= "ext-ms-win-"@);
    }
}

proof fn lemma_rows_sound()
    ensures
        forall|k: int|
            0 <= k < contract_hosts().len() ==> sound_row(#[trigger] contract_hosts()[k]),
{
    lemma_library_names();
    lemma_contract_names();
}

proof fn lemma_host_from(name: Seq<char>, index: int)
    requires
        0 <= index <= contract_hosts().len(),
    ensures
        ({
            let host = host_from(contract_hosts(), name, index);
            &&& host == name || library_name(host)
            &&& !names_contract(name) ==> host == name
        }),
    decreases contract_hosts().len() - index,
{
    if index < contract_hosts().len() {
        let row = contract_hosts()[index];
        lemma_rows_sound();
        assert(sound_row(row));
        if begins_with(name, row.0) {
            lemma_longer_beginning(name, row.0, "api-ms-win-"@);
            lemma_longer_beginning(name, row.0, "ext-ms-win-"@);
        }
        lemma_host_from(name, index + 1);
    }
}

proof fn lemma_longer_beginning(text: Seq<char>, longer: Seq<char>, shorter: Seq<char>)
    requires
        begins_with(text, longer),
    ensures
        begins_with(longer, shorter) ==> begins_with(text, shorter),
{
    if begins_with(longer, shorter) {
        assert(text.take(shorter.len() as int) =~= longer.take(shorter.len() as int));
    }
}

proof fn lemma_library_is_known(name: Seq<char>)
    requires
        library_name(name),
    ensures
        normalized(name) == name,
        !names_contract(name),
{
    lemma_trimmed_of_tight(name);
    assert(lower(name) =~= name);
    reveal_strlit("api-ms-win-");
    reveal_strlit("ext-ms-win-");
    if begins_with(name, "api-ms-win-"@) {
        assert(name.take(11)[3] == '-');
    }
    if begins_with(name, "ext-ms-win-"@) {
        assert(name.take(11)[3] == '-');
    }
}

/// Without mappings of one's own, the library that a name stands for stands
/// for itself; a name that is no contract stands for itself as modules are
/// known; and two names by which the same module is known stand for the same
/// library.
pub proof fn lemma_resolved_twice(name: Seq<char>, other: Seq<char>)
    ensures
        resolved(Map::empty(), resolved(Map::empty(), name)) == resolved(Map::empty(), name),
        !names_contract(normalized(name)) ==> resolved(Map::empty(), name) == normalized(name),
        normalized(name) == normalized(other) ==> resolved(Map::empty(), name) == resolved(
            Map::empty(),
            other,
        ),
{
    let known = normalized(name);
    let host = resolved(Map::empty(), name);
    lemma_host_from(known, 0);
    if host == known {
        lemma_normalized_twice(name);
    } else {
        lemma_library_is_known(host);
        lemma_host_from(host, 0);
    }
}

impl ApiSetResolver {
    pub fn new() -> (resolver: Self)
        ensures
            resolver@ == Map::<Seq<char>, Seq<char>>::empty(),
    {
        let resolver = ApiSetResolver { explicit: NameMap::new() };
        assert(resolver@ =~= Map::<Seq<char>, Seq<char>>::empty());
        resolver
    }

    /// Maps `contract` to `host`, in place of an earlier mapping of it.
    pub fn with_mapping(self, contract: &str, host: &str) -> (resolver: Self)
        ensures
            resolver@ == self@.insert(normalized(contract@), normalized(host@)),
    {
        let mut explicit = self.explicit;
        explicit.insert(normalize_module_name(contract), normalize_module_name(host));
        let resolver = ApiSetResolver { explicit };
        assert(resolver@ =~= self@.insert(normalized(contract@), normalized(host@)));
        resolver
    }

    /// The library that stands for `dll_name`.
    pub fn resolve(&self, dll_name: &str) -> (host: String)
        ensures
            host@ == resolved(self@, dll_name@),
    {
        let name: String = normalize_module_name(dll_name);
        match self.explicit.get(&name) {
            Some(host) => {
                return host.clone();
            },
            None => {},
        }
        let rows: Vec<(&'static str, &'static str)> = contract_rows();
        let mut i: usize = 0;
        while i < rows.len()
            invariant
                i <= rows.len(),
                rows@.len() == contract_hosts().len(),
                forall|k: int|
                    0 <= k < rows@.len() ==> (#[trigger] rows@[k]).0@ == contract_hosts()[k].0
                        && rows@[k].1@ == contract_hosts()[k].1,
                contract_host(name@) == host_from(contract_hosts(), name@, i as int),
                name@ == normalized(dll_name@),
                !self@.contains_key(name@),
            decreases rows.len() - i,
        {
            if has_prefix(&name, rows[i].0) {
                return rows[i].1.to_owned();
            }
            i += 1;
        }
        name
    }
}

impl Default for ApiSetResolver {
    fn default() -> (resolver: Self)
        ensures
            resolver@ == Map::<Seq<char>, Seq<char>>::empty(),
    {
        ApiSetResolver::new()
    }
}

/// A name with a mapping of its own stands for what that says, whatever its
/// case; without one a contract stands for the library of the first row that it
/// begins with, and any other name for itself.
pub proof fn lemma_mapping_first(
    explicit: Map<Seq<char>, Seq<char>>,
    contract: Seq<char>,
    host: Seq<char>,
    name: Seq<char>,
)
    ensures
        normalized(name) == normalized(contract) ==> resolved(
            explicit.insert(normalized(contract), normalized(host)),
            name,
        ) == normalized(host),
        normalized(name) != normalized(contract) ==> resolved(
            explicit.insert(normalized(contract), normalized(host)),
            name,
        ) == resolved(explicit, name),
        forall|i: int|
            0 <= i < contract_hosts().len() && !explicit.contains_key(normalized(name))
                && begins_with(normalized(name), (#[trigger] contract_hosts()[i]).0) && (forall|j: int|
                0 <= j < i ==> !begins_with(normalized(name), (#[trigger] contract_hosts()[j]).0))
                ==> resolved(explicit, name) == contract_hosts()[i].1,
{
    let full = normalized(name);
    assert forall|i: int|
        0 <= i < contract_hosts().len() && !explicit.contains_key(full) && begins_with(
            full,
            (#[trigger] contract_hosts()[i]).0,
        ) && (forall|j: int|
            0 <= j < i ==> !begins_with(
                full,
                (#[trigger] contract_hosts()[j]).0,
            )) implies resolved(explicit, name) == contract_hosts()[i].1 by {
        lemma_first_row(contract_hosts(), full, 0, i);
    }
}

proof fn lemma_first_row(rows: Seq<(Seq<char>, Seq<char>)>, name: Seq<char>, from: int, i: int)
    requires
        0 <= from <= i < rows.len(),
        begins_with(name, rows[i].0),
        forall|j: int| 0 <= j < i ==> !begins_with(name, (#[trigger] rows[j]).0),
    ensures
        host_from(rows, name, from) == rows[i].1,
    decreases i - from,
{
    if from < i {
        assert(!begins_with(name, rows[from].0));
        lemma_first_row(rows, name, from + 1, i);
    }
}

} // verus!
