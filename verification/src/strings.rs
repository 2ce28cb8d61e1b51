//! The chrome's own words, gathered in one overridable place. Fields
//! holding `{title}` or `{panel}` are templates: the placeholder stands for
//! the panel's title.
use vstd::prelude::*;

verus! {

/// Every string the workspace chrome draws itself.
#[derive(Clone, Debug, PartialEq)]
pub struct WorkbenchStrings {
    /// Accessible name for a tab strip whose group is empty.
    pub tab_group_label: String,
    /// Accessible name for a tab strip, naming the active panel.
    /// `{panel}` is replaced with the active panel's title.
    pub tab_group_labelled: String,
    /// The teaching tooltip appended to every tab's title.
    pub tab_hint: String,
    /// Label and tooltip for a closable tab's close affordance.
    /// `{title}` is replaced with the panel's title.
    pub close_tab: String,
    /// Tab-strip placeholder when a group holds no panels.
    pub empty_group_label: String,
    /// Heading of an empty group's body.
    pub empty_tile_title: String,
    /// Guidance under an empty group's heading.
    pub empty_tile_hint: String,
    /// The keyboard vocabulary, taught where keyboard users can read it.
    pub empty_tile_keys: String,
    /// Accessible name for the split-right action.
    pub split_right_label: String,
    /// Tooltip for the split-right action.
    pub split_right_hint: String,
    /// Accessible name for the split-down action.
    pub split_down_label: String,
    /// Tooltip for the split-down action.
    pub split_down_hint: String,
    /// Accessible name for closing an empty group.
    pub close_empty_label: String,
    /// Tooltip for closing an empty group.
    pub close_empty_hint: String,
    /// Accessible name for a splitter between groups.
    pub splitter_label: String,
    /// Tooltip for a splitter between groups.
    pub splitter_hint: String,
}

impl Default for WorkbenchStrings {
    /// The English defaults.
    fn default() -> (r: Self)
        ensures
            r.tab_group_label@ == "Panel group"@,
            r.tab_group_labelled@ == "Panel group: {panel}"@,
            r.tab_hint@ == "Drag to dock. Alt+Shift+Arrows split; Alt+Shift+Page keys move."@,
            r.close_tab@ == "Close {title}"@,
            r.empty_group_label@ == "Empty group"@,
            r.empty_tile_title@ == "Empty panel group"@,
            r.empty_tile_hint@ == "Drag a panel tab here, or close this group."@,
            r.empty_tile_keys@ == "Alt+Shift+Arrows split · Alt+Shift+Page keys move · Arrows switch tabs"@,
            r.split_right_label@ == "Split panel group right"@,
            r.split_right_hint@ == "Split right (Alt+Shift+Right)"@,
            r.split_down_label@ == "Split panel group down"@,
            r.split_down_hint@ == "Split down (Alt+Shift+Down)"@,
            r.close_empty_label@ == "Close empty panel group"@,
            r.close_empty_hint@ == "Close empty group"@,
            r.splitter_label@ == "Resize panel groups"@,
            r.splitter_hint@ == "Drag to resize. Arrow keys resize; Shift moves farther; double-click resets."@,
    {
        WorkbenchStrings {
            tab_group_label: String::from_str("Panel group"),
            tab_group_labelled: String::from_str("Panel group: {panel}"),
            tab_hint: String::from_str("Drag to dock. Alt+Shift+Arrows split; Alt+Shift+Page keys move."),
            close_tab: String::from_str("Close {title}"),
            empty_group_label: String::from_str("Empty group"),
            empty_tile_title: String::from_str("Empty panel group"),
            empty_tile_hint: String::from_str("Drag a panel tab here, or close this group."),
            empty_tile_keys: String::from_str("Alt+Shift+Arrows split · Alt+Shift+Page keys move · Arrows switch tabs"),
            split_right_label: String::from_str("Split panel group right"),
            split_right_hint: String::from_str("Split right (Alt+Shift+Right)"),
            split_down_label: String::from_str("Split panel group down"),
            split_down_hint: String::from_str("Split down (Alt+Shift+Down)"),
            close_empty_label: String::from_str("Close empty panel group"),
            close_empty_hint: String::from_str("Close empty group"),
            splitter_label: String::from_str("Resize panel groups"),
            splitter_hint: String::from_str("Drag to resize. Arrow keys resize; Shift moves farther; double-click resets."),
        }
    }
}

} // verus!
