//! Committed changes of a Raft group's configuration.
//!
//! A configuration entry is applied only in its turn, and only if its payload
//! can be read: anything else stops the node before the group's membership
//! could drift.

use vstd::prelude::*;

use crate::raft_node::{EntryKind, RaftNode};
use crate::text;

verus! {

/// What the parser says against bytes that hold no change of the first format.
/// There is nothing to say where they hold one.
pub uninterp spec fn conf_change_error(bytes: Seq<u8>) -> Option<Seq<char>>;

/// What the parser says against bytes that hold no change of the second format.
/// There is nothing to say where they hold one.
pub uninterp spec fn conf_change_v2_error(bytes: Seq<u8>) -> Option<Seq<char>>;

/// Calls `protobuf::Message::parse_from_bytes` for `raft::prelude::ConfChange`.
/// Whether it succeeds, and what its error prints as, depends on the bytes
/// alone.
#[verifier::external_body]
fn read_conf_change(data: &[u8]) -> (r: Option<String>)
    ensures
        text::optional(r) == conf_change_error(data@),
{
    let change: Result<raft::prelude::ConfChange, _> = protobuf::Message::parse_from_bytes(data);
    match change {
        Ok(_) => None,
        Err(error) => Some(error.to_string()),
    }
}

/// Calls `protobuf::Message::parse_from_bytes` for
/// `raft::prelude::ConfChangeV2`. Whether it succeeds, and what its error prints
/// as, depends on the bytes alone.
#[verifier::external_body]
fn read_conf_change_v2(data: &[u8]) -> (r: Option<String>)
    ensures
        text::optional(r) == conf_change_v2_error(data@),
{
    let change: Result<raft::prelude::ConfChangeV2, _> = protobuf::Message::parse_from_bytes(data);
    match change {
        Ok(_) => None,
        Err(error) => Some(error.to_string()),
    }
}

/// Why a configuration entry was not applied.
#[derive(Clone, Debug, PartialEq, Eq)]
pub enum ConfigurationError {
    /// The entry is not the next one.
    OutOfOrder { index: u64, applied: u64 },
    /// The first format has no empty change.
    EmptyPayload { index: u64 },
    /// The parser does not take the payload for a change.
    Undecodable { index: u64, version: u32, error: String },
    NotConfiguration { index: u64 },
}

/// What a [`ConfigurationError`] states.
#[verifier::ext_equal]
pub enum ConfigurationErrorView {
    OutOfOrder { index: u64, applied: u64 },
    EmptyPayload { index: u64 },
    Undecodable { index: u64, version: u32, error: Seq<char> },
    NotConfiguration { index: u64 },
}

impl View for ConfigurationError {
    type V = ConfigurationErrorView;

    open spec fn view(&self) -> ConfigurationErrorView {
        match *self {
            ConfigurationError::OutOfOrder { index, applied } => {
                ConfigurationErrorView::OutOfOrder { index, applied }
            },
            ConfigurationError::EmptyPayload { index } => {
                ConfigurationErrorView::EmptyPayload { index }
            },
            ConfigurationError::Undecodable { index, version, error } => {
                ConfigurationErrorView::Undecodable { index, version, error: error@ }
            },
            ConfigurationError::NotConfiguration { index } => {
                ConfigurationErrorView::NotConfiguration { index }
            },
        }
    }
}

impl ConfigurationErrorView {
    /// The text of the error.
    pub open spec fn text(self) -> Seq<char> {
        match self {
            ConfigurationErrorView::OutOfOrder { index, applied } => {
                "Raft configuration entry at index "@ + text::decimal(index as nat)
                    + " is not next after durable applied index "@ + text::decimal(applied as nat)
            },
            ConfigurationErrorView::EmptyPayload { index } => {
                "v1 Raft configuration entry at index "@ + text::decimal(index as nat)
                    + " has an empty payload"@
            },
            ConfigurationErrorView::Undecodable { index, version, error } => {
                "Failed to decode v"@ + text::decimal(version as nat)
                    + " Raft configuration entry at index "@ + text::decimal(index as nat) + ": "@
                    + error
            },
            ConfigurationErrorView::NotConfiguration { index } => {
                "Expected a Raft configuration entry at index "@ + text::decimal(index as nat)
                    + ", got EntryNormal"@
            },
        }
    }
}

impl ConfigurationError {
    /// The text of the error.
    pub fn message(&self) -> (r: String)
        ensures
            r@ == self@.text(),
    {
        let mut out;
        match self {
            ConfigurationError::OutOfOrder { index, applied } => {
                out = "Raft configuration entry at index ".to_owned();
                text::push_decimal(&mut out, *index);
                out.append(" is not next after durable applied index ");
                text::push_decimal(&mut out, *applied);
            },
            ConfigurationError::EmptyPayload { index } => {
                out = "v1 Raft configuration entry at index ".to_owned();
                text::push_decimal(&mut out, *index);
                out.append(" has an empty payload");
            },
            ConfigurationError::Undecodable { index, version, error } => {
                out = "Failed to decode v".to_owned();
                text::push_decimal(&mut out, *version as u64);
                out.append(" Raft configuration entry at index ");
                text::push_decimal(&mut out, *index);
                out.append(": ");
                out.append(error.as_str());
            },
            ConfigurationError::NotConfiguration { index } => {
                out = "Expected a Raft configuration entry at index ".to_owned();
                text::push_decimal(&mut out, *index);
                out.append(", got EntryNormal");
            },
        }
        out
    }
}

/// What is wrong with a configuration entry, given what the parser says against
/// its payload.
pub open spec fn configuration_error(
    applied: u64,
    index: u64,
    kind: EntryKind,
    empty: bool,
    unread: Option<Seq<char>>,
) -> Option<ConfigurationErrorView> {
    if index != applied + 1 {
        Some(ConfigurationErrorView::OutOfOrder { index, applied })
    } else {
        match kind {
            EntryKind::ConfChange => if empty {
                Some(ConfigurationErrorView::EmptyPayload { index })
            } else {
                match unread {
                    Some(error) => Some(
                        ConfigurationErrorView::Undecodable { index, version: 1, error },
                    ),
                    None => None,
                }
            },
            EntryKind::ConfChangeV2 => match unread {
                Some(error) => Some(
                    ConfigurationErrorView::Undecodable { index, version: 2, error },
                ),
                None => None,
            },
            EntryKind::Normal => Some(ConfigurationErrorView::NotConfiguration { index }),
        }
    }
}

/// What the parser says against the payload of an entry of the kind.
pub open spec fn payload_error(kind: EntryKind, data: Seq<u8>) -> Option<Seq<char>> {
    match kind {
        EntryKind::ConfChange => conf_change_error(data),
        EntryKind::ConfChangeV2 => conf_change_v2_error(data),
        EntryKind::Normal => None,
    }
}

/// The view of an error that may be missing.
pub open spec fn error_view(error: Option<ConfigurationError>) -> Option<ConfigurationErrorView> {
    match error {
        Some(error) => Some(error@),
        None => None,
    }
}

/// What is wrong with a configuration entry, given what the parser says against
/// its payload.
pub fn judge_configuration(
    node: &RaftNode,
    index: u64,
    kind: EntryKind,
    empty: bool,
    unread: Option<String>,
) -> (r: Option<ConfigurationError>)
    ensures
        error_view(r) == configuration_error(
            node@.durable_applied,
            index,
            kind,
            empty,
            text::optional(unread),
        ),
{
    match node.check_configuration_order(index) {
        Err(applied) => Some(ConfigurationError::OutOfOrder { index, applied }),
        Ok(_) => match kind {
            EntryKind::ConfChange => if empty {
                Some(ConfigurationError::EmptyPayload { index })
            } else {
                match unread {
                    Some(error) => Some(
                        ConfigurationError::Undecodable { index, version: 1, error },
                    ),
                    None => None,
                }
            },
            EntryKind::ConfChangeV2 => match unread {
                Some(error) => Some(ConfigurationError::Undecodable { index, version: 2, error }),
                None => None,
            },
            EntryKind::Normal => Some(ConfigurationError::NotConfiguration { index }),
        },
    }
}

/// Whether a committed configuration entry may be applied.
pub fn check_configuration_entry(
    node: &RaftNode,
    index: u64,
    kind: EntryKind,
    data: &Vec<u8>,
) -> (r: Result<(), ConfigurationError>)
    ensures
        match configuration_error(
            node@.durable_applied,
            index,
            kind,
            data@.len() == 0,
            payload_error(kind, data@),
        ) {
            Some(error) => r matches Err(found) && found@ == error,
            None => r is Ok,
        },
{
    let unread = match kind {
        EntryKind::ConfChange => read_conf_change(data.as_slice()),
        EntryKind::ConfChangeV2 => read_conf_change_v2(data.as_slice()),
        EntryKind::Normal => None,
    };
    match judge_configuration(node, index, kind, data.len() == 0, unread) {
        Some(error) => Err(error),
        None => Ok(()),
    }
}

/// Configuration entries are applied one by one and without a gap: an entry
/// that may be applied is the one right behind what is applied.
pub proof fn configuration_leaves_no_gap(
    applied: u64,
    index: u64,
    kind: EntryKind,
    empty: bool,
    unread: Option<Seq<char>>,
)
    ensures
        configuration_error(applied, index, kind, empty, unread) is None ==> index == applied + 1
            && kind != EntryKind::Normal && unread is None && (kind == EntryKind::ConfChange
            ==> !empty),
{
}

/// An entry is applied on these terms: it is the next one, and its payload is a
/// change of its own format, where the first format has no empty change.
pub proof fn configurations_are_applied_on_these_terms(
    applied: u64,
    index: u64,
    kind: EntryKind,
    data: Seq<u8>,
)
    ensures
        configuration_error(applied, index, kind, data.len() == 0, payload_error(kind, data)) is None
            <==> index == applied + 1 && {
            ||| kind is ConfChange && data.len() > 0 && conf_change_error(data) is None
            ||| kind is ConfChangeV2 && conf_change_v2_error(data) is None
        },
{
}

/// What is refused is refused for the first of the terms that it breaks: its
/// place, its kind, an empty change of the first format, and what the parser
/// says against the payload.
pub proof fn configurations_are_refused_for_cause(
    applied: u64,
    index: u64,
    kind: EntryKind,
    empty: bool,
    unread: Option<Seq<char>>,
)
    ensures
        configuration_error(applied, index, kind, empty, unread) matches Some(error) ==> {
            &&& error is OutOfOrder <==> index != applied + 1
            &&& error is NotConfiguration <==> index == applied + 1 && kind is Normal
            &&& error is EmptyPayload <==> index == applied + 1 && kind is ConfChange && empty
            &&& error is Undecodable <==> index == applied + 1 && unread is Some && {
                ||| kind is ConfChangeV2
                ||| kind is ConfChange && !empty
            }
            &&& error matches ConfigurationErrorView::OutOfOrder { index: told, applied: place }
                ==> told == index && place == applied
            &&& error matches ConfigurationErrorView::NotConfiguration { index: told } ==> told
                == index
            &&& error matches ConfigurationErrorView::EmptyPayload { index: told } ==> told == index
            &&& error matches ConfigurationErrorView::Undecodable { index: told, version, error }
                ==> told == index && Some(error) == unread && (version == 1 <==> kind is ConfChange)
                && (version == 2 <==> kind is ConfChangeV2)
        },
{
}

/// A refusal tells the place of the entry, and what it should have followed.
pub proof fn refusals_tell_the_place(index: u64, applied: u64, version: u32, error: Seq<char>)
    ensures
        (ConfigurationErrorView::OutOfOrder { index, applied }).text()
            == "Raft configuration entry at index "@ + text::decimal(index as nat)
            + " is not next after durable applied index "@ + text::decimal(applied as nat),
        (ConfigurationErrorView::Undecodable { index, version, error }).text()
            == "Failed to decode v"@ + text::decimal(version as nat)
            + " Raft configuration entry at index "@ + text::decimal(index as nat) + ": "@ + error,
{
}

} // verus!
