//! The rules of the `tag` command.

use crate::commands::common_opts::RepoPath;
use crate::text::{debug_form, debug_text, join2, join3};
use vstd::prelude::*;

verus! {

/// `jiff::Timestamp`: the time of a tag is carried through as it is given.
#[verifier::external_type_specification]
#[verifier::external_body]
pub struct ExTimestamp(jiff::Timestamp);

#[derive(Debug)]
pub struct Tag {
    pub base: RepoPath,
    pub subcmd: Option<SubCommand>,
    pub channel: Option<String>,
}

#[derive(Debug)]
#[allow(inconsistent_fields)]
pub enum SubCommand {
    /// Create a tag, which are compressed channels. Note that tags
    /// are not independent from the changes they contain.
    Create {
        base: RepoPath,
        message: Option<String>,
        /// Set the author field
        author: Option<String>,
        /// Tag the current state of this channel instead of the
        /// current channel.
        channel: Option<String>,
        timestamp: Option<jiff::Timestamp>,
    },
    /// Restore a tag into a new channel.
    Checkout {
        base: RepoPath,
        tag: String,
        /// Optional new channel name. If not given, the base32
        /// representation of the tag hash is used.
        to_channel: Option<String>,
    },
    /// Reset the working copy to a tag.
    Reset { base: RepoPath, tag: String },
    /// Delete a tag from a channel. If the same state isn't tagged in
    /// other channels, delete the tag file.
    Delete {
        base: RepoPath,
        /// Delete the tag in this channel instead of the current channel
        channel: Option<String>,
        tag: String,
    },
}

/// Why a tag command is refused.
#[derive(Debug)]
pub enum TagError {
    /// The channel has no change, hence no state to tag.
    EmptyChannel(String),
    AlreadyTagged,
    ChannelExists(String),
    UnrecordedChanges,
}

impl TagError {
    pub open spec fn spec_message(&self) -> Seq<char> {
        match self {
            TagError::EmptyChannel(name) => "Channel "@ + name@ + " is empty"@,
            TagError::AlreadyTagged => "Current state is already tagged"@,
            TagError::ChannelExists(name) => "Channel "@ + debug_form(name@) + " already exists"@,
            TagError::UnrecordedChanges =>
                "Cannot change channel, as there are unrecorded changes."@,
        }
    }

    pub fn message(&self) -> (res: String)
        ensures
            res@ == self.spec_message(),
    {
        match self {
            TagError::EmptyChannel(name) => join3("Channel ", name.as_str(), " is empty"),
            TagError::AlreadyTagged => "Current state is already tagged".to_owned(),
            TagError::ChannelExists(name) => {
                let shown = debug_text(name.as_str());
                join3("Channel ", shown.as_str(), " already exists")
            },
            TagError::UnrecordedChanges =>
                "Cannot change channel, as there are unrecorded changes.".to_owned(),
        }
    }
}

/// A state is tagged only while the working copy holds nothing that is not
/// recorded.
pub fn check_recorded(unrecorded_actions: usize) -> (res: Result<(), TagError>)
    ensures
        res is Ok <==> unrecorded_actions == 0,
        res matches Err(e) ==> e matches TagError::UnrecordedChanges,
{
    if unrecorded_actions > 0 {
        Err(TagError::UnrecordedChanges)
    } else {
        Ok(())
    }
}

/// The ordinal at which a new tag is put: that of the last change of the
/// channel. No tag is put on an empty channel, nor a second one on a state.
pub fn check_create(channel_name: &str, last: Option<u64>, tagged: bool) -> (res: Result<
    u64,
    TagError,
>)
    ensures
        match last {
            None => res matches Err(TagError::EmptyChannel(name)) && name@ == channel_name@,
            Some(n) => if tagged {
                res matches Err(TagError::AlreadyTagged)
            } else {
                res == Ok::<u64, TagError>(n)
            },
        },
{
    match last {
        None => Err(TagError::EmptyChannel(channel_name.to_owned())),
        Some(n) => {
            if tagged {
                Err(TagError::AlreadyTagged)
            } else {
                Ok(n)
            }
        },
    }
}

/// The name of the channel into which a tag is restored: the one that was
/// asked for, else the text of the tag's hash.
pub fn checkout_channel<'a>(to_channel: Option<&'a str>, tag_text: &'a str) -> (res: &'a str)
    ensures
        res@ == (match to_channel {
            Some(c) => c@,
            None => tag_text@,
        }),
{
    match to_channel {
        Some(c) => c,
        None => tag_text,
    }
}

/// A tag is restored only into a channel that does not exist yet.
pub fn check_checkout(channel_name: &str, exists: bool) -> (res: Result<(), TagError>)
    ensures
        res is Ok <==> !exists,
        res matches Err(e) ==> (e matches TagError::ChannelExists(name) && name@ == channel_name@),
{
    if exists {
        Err(TagError::ChannelExists(channel_name.to_owned()))
    } else {
        Ok(())
    }
}

/// The line that reports that a tag was restored.
pub fn restored_line(tag_text: &str, channel_name: &str) -> (res: String)
    ensures
        res@ == "Tag "@ + tag_text@ + " restored as channel "@ + channel_name@,
{
    let mut out = join3("Tag ", tag_text, " restored as channel ");
    out.append(channel_name);
    out
}

/// The line that reports that the working copy was reset to a tag.
pub fn reset_line(tag_text: &str) -> (res: String)
    ensures
        res@ == "Reset to tag "@ + tag_text@,
{
    join2("Reset to tag ", tag_text)
}

/// The line that reports that a tag was deleted.
pub fn deleted_line(tag_text: &str) -> (res: String)
    ensures
        res@ == "Deleted tag "@ + tag_text@,
{
    join2("Deleted tag ", tag_text)
}

/// How a tag is listed, given the text of its state, of its authors and of
/// its date, and its message.
pub fn listing_entry(state: &str, authors: &str, date: &str, message: &str) -> (res: String)
    ensures
        res@ == "State "@ + state@ + "\n"@ + "Author: "@ + authors@ + "\n"@ + "Date: "@ + date@
            + "\n"@ + "\n    "@ + message@ + "\n\n"@,
{
    let mut out = join3("State ", state, "\n");
    out.append("Author: ");
    out.append(authors);
    out.append("\n");
    out.append("Date: ");
    out.append(date);
    out.append("\n");
    out.append("\n    ");
    out.append(message);
    out.append("\n\n");
    out
}

/// Where the author of a tag comes from.
#[derive(Debug)]
pub enum AuthorSource<'a> {
    /// The name that was given on the command line: it is entered as `name`.
    Name(&'a str),
    /// The public key of the user's identity: it is entered as `key`.
    Identity,
    /// The tag is entered without an author.
    Nobody,
}

/// The author of a tag is the one named on the command line; else the
/// identity of the user, if the user has a configuration; else nobody.
pub fn author_source<'a>(author: Option<&'a str>, has_config_dir: bool) -> (res: AuthorSource<'a>)
    ensures
        match author {
            Some(a) => res matches AuthorSource::Name(n) && n@ == a@,
            None => if has_config_dir {
                res is Identity
            } else {
                res is Nobody
            },
        },
{
    match author {
        Some(a) => AuthorSource::Name(a),
        None => {
            if has_config_dir {
                AuthorSource::Identity
            } else {
                AuthorSource::Nobody
            }
        },
    }
}

/// The message that a tag begins with: the one given, else none. A tag
/// without a message is handed to the user's editor.
pub fn initial_message(message: Option<&str>) -> (res: (String, bool))
    ensures
        res.0@ == (match message {
            Some(m) => m@,
            None => Seq::<char>::empty(),
        }),
        res.1 == (res.0@.len() == 0),
{
    let text = match message {
        Some(m) => m.to_owned(),
        None => String::new(),
    };
    let edit = text.as_str().is_empty();
    (text, edit)
}

} // verus!
