//! The rules of the `channel` command.

use crate::commands::common_opts::RepoPath;
use crate::text::{join2, same_text};
use vstd::prelude::*;

verus! {

#[derive(Debug)]
pub struct Channel {
    pub base: RepoPath,
    pub subcmd: Option<SubCommand>,
}

#[derive(Debug)]
#[allow(inconsistent_fields)]
pub enum SubCommand {
    /// Delete a channel.
    /// The channel must not be the current channel.
    Delete { delete: String },
    /// Rename a channel.
    Rename {
        /// Name of the channel to be renamed. Defaults to current channel.
        from: Option<String>,
        /// New name of the channel to rename to.
        to: String,
    },
    /// Switch to a channel.
    /// There must not be unrecorded changes in the working copy.
    Switch {
        /// Name of the channel to switch to. If not specified, defaults to current channel.
        to: Option<String>,
        force: bool,
    },
    /// Create a new, empty channel.
    New { name: String, empty: bool, force: bool },
}

/// Why a channel command is refused.
#[derive(Debug)]
pub enum ChannelError {
    DeleteCurrent,
    NoSuchChannel(String),
    NoCurrentChannel,
    EmptyWithoutForce,
    AlreadyExists(String),
}

pub enum ChannelErrorView {
    DeleteCurrent,
    NoSuchChannel(Seq<char>),
    NoCurrentChannel,
    EmptyWithoutForce,
    AlreadyExists(Seq<char>),
}

impl View for ChannelError {
    type V = ChannelErrorView;

    open spec fn view(&self) -> ChannelErrorView {
        match self {
            ChannelError::DeleteCurrent => ChannelErrorView::DeleteCurrent,
            ChannelError::NoSuchChannel(n) => ChannelErrorView::NoSuchChannel(n@),
            ChannelError::NoCurrentChannel => ChannelErrorView::NoCurrentChannel,
            ChannelError::EmptyWithoutForce => ChannelErrorView::EmptyWithoutForce,
            ChannelError::AlreadyExists(n) => ChannelErrorView::AlreadyExists(n@),
        }
    }
}

impl ChannelErrorView {
    pub open spec fn message(self) -> Seq<char> {
        match self {
            ChannelErrorView::DeleteCurrent => "Cannot delete current channel"@,
            ChannelErrorView::NoSuchChannel(n) => "No such channel: "@ + n,
            ChannelErrorView::NoCurrentChannel => "No current channel"@,
            ChannelErrorView::EmptyWithoutForce =>
                "If creating an empty channel is really what you want, please use -f."@,
            ChannelErrorView::AlreadyExists(n) => "Channel "@ + n + " already exists"@,
        }
    }
}

impl ChannelError {
    pub fn message(&self) -> (res: String)
        ensures
            res@ == self@.message(),
    {
        match self {
            ChannelError::DeleteCurrent => "Cannot delete current channel".to_owned(),
            ChannelError::NoSuchChannel(n) => join2("No such channel: ", n.as_str()),
            ChannelError::NoCurrentChannel => "No current channel".to_owned(),
            ChannelError::EmptyWithoutForce =>
                "If creating an empty channel is really what you want, please use -f.".to_owned(),
            ChannelError::AlreadyExists(n) => crate::text::join3(
                "Channel ",
                n.as_str(),
                " already exists",
            ),
        }
    }
}

/// The view of an optional string.
pub open spec fn opt_text(s: Option<&str>) -> Option<Seq<char>> {
    match s {
        Some(s) => Some(s@),
        None => None,
    }
}

/// The line under which a channel is listed: the current channel is marked
/// with a star.
pub fn listing_line(name: &str, current: Option<&str>) -> (res: String)
    ensures
        res@ == (if opt_text(current) == Some(name@) {
            "* "@
        } else {
            "  "@
        }) + name@,
{
    let is_current = match current {
        Some(c) => same_text(c, name),
        None => false,
    };
    if is_current {
        join2("* ", name)
    } else {
        join2("  ", name)
    }
}

/// A channel may be deleted unless it is the current one.
pub fn check_delete(delete: &str, current: Option<&str>) -> (res: Result<(), ChannelError>)
    ensures
        res is Err <==> opt_text(current) == Some(delete@),
        res matches Err(e) ==> e@ == ChannelErrorView::DeleteCurrent,
{
    let is_current = match current {
        Some(c) => same_text(c, delete),
        None => false,
    };
    if is_current {
        Err(ChannelError::DeleteCurrent)
    } else {
        Ok(())
    }
}

/// What the deletion of a channel comes to, given whether a channel of that
/// name was found and dropped.
pub fn after_delete(delete: &str, dropped: bool) -> (res: Result<(), ChannelError>)
    ensures
        res is Ok <==> dropped,
        res matches Err(e) ==> e@ == ChannelErrorView::NoSuchChannel(delete@),
{
    if dropped {
        Ok(())
    } else {
        Err(ChannelError::NoSuchChannel(delete.to_owned()))
    }
}

/// The channel that a renaming starts from: the one that is named, else the
/// current one.
pub fn rename_source<'a>(from: Option<&'a str>, current: Option<&'a str>) -> (res: Result<
    &'a str,
    ChannelError,
>)
    ensures
        match (from, current) {
            (Some(f), _) => res matches Ok(r) && r@ == f@,
            (None, Some(c)) => res matches Ok(r) && r@ == c@,
            (None, None) => res matches Err(e) && e@ == ChannelErrorView::NoCurrentChannel,
        },
{
    match from {
        Some(f) => Ok(f),
        None => match current {
            Some(c) => Ok(c),
            None => Err(ChannelError::NoCurrentChannel),
        },
    }
}

/// Whether a new channel may be made, and if so, whether the first change of
/// the current channel is to be applied to it: an empty channel is made only
/// when forced, and no channel under a name that is taken.
pub fn check_new(name: &str, empty: bool, force: bool, exists: bool) -> (res: Result<
    bool,
    ChannelError,
>)
    ensures
        match res {
            Ok(apply_first) => !(empty && !force) && !exists && apply_first == !empty,
            Err(e) => if empty && !force {
                e@ == ChannelErrorView::EmptyWithoutForce
            } else {
                exists && e@ == ChannelErrorView::AlreadyExists(name@)
            },
        },
{
    if empty && !force {
        Err(ChannelError::EmptyWithoutForce)
    } else if exists {
        Err(ChannelError::AlreadyExists(name.to_owned()))
    } else {
        Ok(!empty)
    }
}

} // verus!
