//! The menu bar.
use vstd::prelude::*;

use crate::text::{owned, push_decimal};

verus! {

use crate::text::decimal;

/// What was chosen from the menus.
#[derive(Debug, Clone, Copy, PartialEq, Eq, Structural)]
pub enum TopbarAction {
    Nothing,
    AddScan,
    ExportCsv,
    ToggleShowAll,
    ShowExtensionBreakdown,
    ShowDuplicateFinder,
    RestartAsAdmin,
}

/// What the bar shows.
pub struct TopbarState<'a> {
    pub scanning: bool,
    pub scanned_count: u64,
    pub scan_error: Option<&'a str>,
    pub has_result: bool,
    pub show_all_details: bool,
    pub is_admin: bool,
}

/// What the right end of the bar says: how far a scan is, or else what went wrong last.
pub open spec fn status(s: TopbarState) -> Option<Seq<char>> {
    if s.scanning {
        Some("正在扫描… 已发现 "@ + decimal(s.scanned_count as nat) + " 项"@)
    } else {
        match s.scan_error {
            Some(e) => Some(e@),
            None => None,
        }
    }
}

impl<'a> TopbarState<'a> {
    /// What the right end of the bar says, if anything.
    pub fn status_text(&self) -> (r: Option<String>)
        ensures
            match r {
                Some(s) => status(*self) == Some(s@),
                None => status(*self) is None,
            },
    {
        if self.scanning {
            let mut out = owned("正在扫描… 已发现 ");
            push_decimal(&mut out, self.scanned_count);
            out.append(" 项");
            return Some(out);
        }
        match self.scan_error {
            Some(e) => Some(owned(e)),
            None => None,
        }
    }

    /// Whether a choice can be made: there must be something to export, and an administrator needs
    /// no restart as one.
    pub fn offers(&self, action: TopbarAction) -> (r: bool)
        ensures
            r == match action {
                TopbarAction::ExportCsv => self.has_result,
                TopbarAction::RestartAsAdmin => !self.is_admin,
                _ => true,
            },
    {
        match action {
            TopbarAction::ExportCsv => self.has_result,
            TopbarAction::RestartAsAdmin => !self.is_admin,
            _ => true,
        }
    }
}

} // verus!
