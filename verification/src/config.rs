//! Command-line arguments and the custom info/command configuration, with
//! the edits the interactive editor makes to it.
use vstd::prelude::*;
use crate::text::{chars_of, string_from_chars, decimal, push_radix_digits, extend_chars, encode_utf8};
use vstd::utf8::{is_char_boundary, encode_utf8_valid_utf8};

verus! {

/// Command-line arguments of the service.
#[derive(Debug, Clone)]
pub struct Args {
    pub command: Option<Command>,
    /// BLE advertised device name
    pub name: String,
    /// Security key for WiFi configuration commands
    pub key: String,
    /// Path to custom_config.json
    pub config: String,
}

/// Subcommands of the service.
#[derive(Debug, Clone, Copy, PartialEq, Eq)]
pub enum Command {
    /// Start BLE service (default)
    Serve,
    /// Interactive config file editor
    Config,
}

/// A custom info item: a label and a shell command polled every `interval` seconds.
#[derive(Debug, Clone)]
pub struct InfoItem {
    pub label: String,
    pub command: String,
    pub interval: u64,
}

/// A custom command: a label and the shell command it runs.
#[derive(Debug, Clone)]
pub struct CommandItem {
    pub label: String,
    pub command: String,
}

/// The custom configuration file's contents.
#[derive(Debug, Clone)]
pub struct CustomConfig {
    pub info: Vec<InfoItem>,
    pub commands: Vec<CommandItem>,
}

/// Polling interval, in seconds, of an info item that gives none.
pub fn default_interval() -> (r: u64)
    ensures
        r == 10,
{
    10
}

impl CustomConfig {
    /// The configuration with no info item and no command (used when the
    /// file is missing or unreadable).
    pub fn empty() -> (c: CustomConfig)
        ensures
            c.info@.len() == 0,
            c.commands@.len() == 0,
    {
        CustomConfig { info: Vec::new(), commands: Vec::new() }
    }

    /// Appends an info item.
    pub fn add_info(&mut self, item: InfoItem)
        ensures
            final(self).info@ == old(self).info@.push(item),
            final(self).commands@ == old(self).commands@,
    {
        self.info.push(item);
    }

    /// Replaces the info item at `idx`.
    pub fn edit_info(&mut self, idx: usize, item: InfoItem)
        requires
            idx < old(self).info@.len(),
        ensures
            final(self).info@ == old(self).info@.update(idx as int, item),
            final(self).commands@ == old(self).commands@,
    {
        self.info.set(idx, item);
    }

    /// Removes the info item at `idx`, returning it.
    pub fn remove_info(&mut self, idx: usize) -> (r: InfoItem)
        requires
            idx < old(self).info@.len(),
        ensures
            r == old(self).info@[idx as int],
            final(self).info@ == old(self).info@.remove(idx as int),
            final(self).commands@ == old(self).commands@,
    {
        self.info.remove(idx)
    }

    /// Appends a command.
    pub fn add_command(&mut self, item: CommandItem)
        ensures
            final(self).commands@ == old(self).commands@.push(item),
            final(self).info@ == old(self).info@,
    {
        self.commands.push(item);
    }

    /// Replaces the command at `idx`.
    pub fn edit_command(&mut self, idx: usize, item: CommandItem)
        requires
            idx < old(self).commands@.len(),
        ensures
            final(self).commands@ == old(self).commands@.update(idx as int, item),
            final(self).info@ == old(self).info@,
    {
        self.commands.set(idx, item);
    }

    /// Removes the command at `idx`, returning it.
    pub fn remove_command(&mut self, idx: usize) -> (r: CommandItem)
        requires
            idx < old(self).commands@.len(),
        ensures
            r == old(self).commands@[idx as int],
            final(self).commands@ == old(self).commands@.remove(idx as int),
            final(self).info@ == old(self).info@,
    {
        self.commands.remove(idx)
    }
}

/// How an info item is offered in a selection list: `label (Ns)`.
pub fn info_choice_label(item: &InfoItem) -> (r: String)
    ensures
        r@ == item.label@ + seq![' ', '('] + decimal(item.interval as nat) + seq!['s', ')'],
{
    let mut v = chars_of(item.label.as_str());
    v.push(' ');
    v.push('(');
    push_radix_digits(item.interval, 10, &mut v);
    v.push('s');
    v.push(')');
    assert(v@ =~= item.label@ + seq![' ', '('] + decimal(item.interval as nat) + seq!['s', ')']);
    string_from_chars(v.as_slice())
}

/// How a command is offered in a selection list: `label → command`.
pub fn command_choice_label(item: &CommandItem) -> (r: String)
    ensures
        r@ == item.label@ + seq![' ', '\u{2192}', ' '] + item.command@,
{
    let mut v = chars_of(item.label.as_str());
    v.push(' ');
    v.push('\u{2192}');
    v.push(' ');
    let c = chars_of(item.command.as_str());
    extend_chars(&mut v, c.as_slice());
    assert(v@ =~= item.label@ + seq![' ', '\u{2192}', ' '] + item.command@);
    string_from_chars(v.as_slice())
}

/// Commands longer than this many bytes are shortened in the info table.
pub const COMMAND_COLUMN_BYTES: usize = 38;

/// The command as shown in the info table: up to 38 bytes whole, else its
/// first 37 bytes and an ellipsis.
pub fn command_display(command: &str) -> (r: String)
    requires
        encode_utf8(command@).len() <= COMMAND_COLUMN_BYTES || is_char_boundary(encode_utf8(command@), 37),
    ensures
        encode_utf8(command@).len() <= COMMAND_COLUMN_BYTES ==> r@ == command@,
        encode_utf8(command@).len() > COMMAND_COLUMN_BYTES ==> encode_utf8(r@) == encode_utf8(command@).take(37)
            + encode_utf8(seq!['\u{2026}']),
{
    proof {
        encode_utf8_valid_utf8(command@);
    }
    if command.as_bytes().len() <= COMMAND_COLUMN_BYTES {
        return String::from_str(command);
    }
    let (head, _tail) = command.split_at(37);
    let mut r = String::from_str(head);
    r.append("\u{2026}");
    proof {
        reveal_strlit("\u{2026}");
        crate::protocol::lemma_encode_utf8_concat(head@, seq!['\u{2026}']);
        assert("\u{2026}"@ == seq!['\u{2026}']);
        assert(r@ == head@ + seq!['\u{2026}']);
        assert(encode_utf8(head@) == encode_utf8(command@).subrange(0, 37));
        assert(encode_utf8(command@).subrange(0, 37) == encode_utf8(command@).take(37));
    }
    r
}

} // verus!
