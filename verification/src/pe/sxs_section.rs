//! The sections of an activation context.
use vstd::prelude::*;

verus! {

/// Assembly information section.
pub const ASSEMBLY_INFORMATION: u32 = 1;

/// DLL redirection section.
pub const DLL_REDIRECTION: u32 = 2;

/// Window class redirection section.
pub const WINDOW_CLASS_REDIRECTION: u32 = 3;

/// COM server redirection section.
pub const COM_SERVER_REDIRECTION: u32 = 4;

/// COM interface redirection section.
pub const COM_INTERFACE_REDIRECTION: u32 = 5;

/// COM type library redirection section.
pub const COM_TYPE_LIBRARY_REDIRECTION: u32 = 6;

/// COM program identifier redirection section.
pub const COM_PROGID_REDIRECTION: u32 = 7;

} // verus!
