//! Turning the help text of the command line into a manual in Markdown,
//! line by line.

use crate::text::{
    chars_of, has_prefix, is_word, push_str, starts_with, string_of, trim_bounds, trim_range,
};
use vstd::prelude::*;

verus! {

/// The program's name as it is typed.
pub const PRETTY_APP_NAME: &'static str = "cargo vet";

/// The program's name as links spell it.
pub const APP_NAME: &'static str = "cargo-vet";

/// Where in the help text of one command the lines are.
#[derive(Clone, Copy, Debug, PartialEq, Eq, Structural)]
pub struct HelpState {
    /// Under the heading that lists the subcommands.
    pub in_subcommands_listing: bool,
    /// Under the heading that shows the usage.
    pub in_usage: bool,
}

/// No letter of `s` is a small letter.
pub open spec fn screaming(s: Seq<char>) -> bool {
    forall|i: int| 0 <= i < s.len() ==> !('a' <= #[trigger] s[i] <= 'z')
}

/// `s` without the blanks at its ends.
pub open spec fn stripped(s: Seq<char>) -> Seq<char> {
    let (from, to) = trim_bounds(s, 0, s.len() as int);
    s.subrange(from, to)
}

/// What one line of help text becomes, and where the lines are after it.
/// `section` names the command before its headings.
///
/// A line that ends in a colon and does not start with a space is a
/// heading; a heading in capitals is one of the command's own. Under the
/// list of subcommands, a line that is not indented by five spaces names a
/// subcommand and becomes a link. Of anything else the blanks at the ends
/// are dropped: a usage line is set as code, the name of an argument as a
/// subheading, a default in brackets is escaped, and the rest is text.
pub open spec fn help_line(state: HelpState, section: Seq<char>, line: Seq<char>) -> (
    Seq<char>,
    HelpState,
) {
    let heading = line.subrange(0, line.len() - 1);
    let text = stripped(line);
    if line.len() > 0 && line.last() == ':' && line[0] != ' ' {
        if screaming(heading) {
            (
                "### "@ + section + heading + "\n"@,
                HelpState {
                    in_subcommands_listing: heading == "SUBCOMMANDS"@,
                    in_usage: heading == "USAGE"@,
                },
            )
        } else {
            ("### "@ + heading + "\n"@, state)
        }
    } else if state.in_subcommands_listing && !starts_with(line, 0, "     "@) {
        ("* ["@ + text + "](#"@ + APP_NAME@ + "-"@ + text + "): "@, state)
    } else if state.in_usage && starts_with(text, 0, PRETTY_APP_NAME@) {
        ("```\n"@ + text + "\n```\n"@, state)
    } else if text.len() > 0 && (text[0] == '-' || text[0] == '<') {
        ("#### `"@ + text + "`\n"@, state)
    } else if text.len() > 0 && text[0] == '[' {
        ("\\"@ + text + "  \n"@, state)
    } else {
        (text + "\n"@, state)
    }
}

fn is_screaming(s: &Vec<char>, to: usize) -> (loud: bool)
    requires
        to <= s@.len(),
    ensures
        loud == screaming(s@.subrange(0, to as int)),
{
    let mut i: usize = 0;
    while i < to
        invariant
            i <= to <= s@.len(),
            forall|j: int| 0 <= j < i ==> !('a' <= #[trigger] s@.subrange(0, to as int)[j] <= 'z'),
        decreases to - i,
    {
        let c = s[i];
        if 'a' <= c && c <= 'z' {
            assert(s@.subrange(0, to as int)[i as int] == c);
            return false;
        }
        i += 1;
    }
    true
}

/// Renders one line of help text; see [`help_line`].
pub fn render_help_line(state: &mut HelpState, section: &str, line: &str) -> (out: String)
    ensures
        out@ == help_line(*old(state), section@, line@).0,
        *final(state) == help_line(*old(state), section@, line@).1,
{
    let s = chars_of(line);
    let n = s.len();
    let (from, to) = trim_range(&s, 0, n);
    let text = string_of(&s, from, to);
    let ghost body = stripped(line@);
    assert(text@ == body);
    let mut out = String::new();
    if n > 0 && s[n - 1] == ':' && s[0] != ' ' {
        let heading = string_of(&s, 0, n - 1);
        push_str(&mut out, "### ");
        if is_screaming(&s, n - 1) {
            push_str(&mut out, section);
            state.in_subcommands_listing = is_word(&s, 0, n - 1, "SUBCOMMANDS");
            state.in_usage = is_word(&s, 0, n - 1, "USAGE");
        }
        push_str(&mut out, heading.as_str());
        push_str(&mut out, "\n");
        assert(out@ =~= help_line(*old(state), section@, line@).0);
        return out;
    }
    if state.in_subcommands_listing && !has_prefix(&s, 0, "     ") {
        push_str(&mut out, "* [");
        push_str(&mut out, text.as_str());
        push_str(&mut out, "](#");
        push_str(&mut out, APP_NAME);
        push_str(&mut out, "-");
        push_str(&mut out, text.as_str());
        push_str(&mut out, "): ");
        assert(out@ =~= help_line(*old(state), section@, line@).0);
        return out;
    }
    let body_chars = chars_of(text.as_str());
    if state.in_usage && has_prefix(&body_chars, 0, PRETTY_APP_NAME) {
        push_str(&mut out, "```\n");
        push_str(&mut out, text.as_str());
        push_str(&mut out, "\n```\n");
        assert(out@ =~= help_line(*old(state), section@, line@).0);
        return out;
    }
    if body_chars.len() > 0 && (body_chars[0] == '-' || body_chars[0] == '<') {
        push_str(&mut out, "#### `");
        push_str(&mut out, text.as_str());
        push_str(&mut out, "`\n");
        assert(out@ =~= help_line(*old(state), section@, line@).0);
        return out;
    }
    if body_chars.len() > 0 && body_chars[0] == '[' {
        push_str(&mut out, "\\");
        push_str(&mut out, text.as_str());
        push_str(&mut out, "  \n");
        assert(out@ =~= help_line(*old(state), section@, line@).0);
        return out;
    }
    push_str(&mut out, text.as_str());
    push_str(&mut out, "\n");
    assert(out@ =~= help_line(*old(state), section@, line@).0);
    out
}

/// What stands before the help of one command: the version for the program
/// itself, a heading for a subcommand.
pub open spec fn help_header(full_command: bool, version_line: Seq<char>, name: Seq<char>) -> Seq<
    char,
> {
    if full_command {
        "Version: `"@ + version_line + "`\n\n"@
    } else {
        "<br><br><br>\n## "@ + help_section(full_command, name) + "\n"@
    }
}

/// The name of a command before its headings: nothing for the program
/// itself, the program and the subcommand otherwise.
pub open spec fn help_section(full_command: bool, name: Seq<char>) -> Seq<char> {
    if full_command {
        Seq::empty()
    } else {
        PRETTY_APP_NAME@ + " "@ + name + " "@
    }
}

/// The name of a command before its headings; see [`help_section`].
pub fn render_help_section(full_command: bool, name: &str) -> (out: String)
    ensures
        out@ == help_section(full_command, name@),
{
    let mut out = String::new();
    if !full_command {
        push_str(&mut out, PRETTY_APP_NAME);
        push_str(&mut out, " ");
        push_str(&mut out, name);
        push_str(&mut out, " ");
        assert(out@ =~= help_section(full_command, name@));
    }
    out
}

/// What stands before the help of one command; see [`help_header`].
pub fn render_help_header(full_command: bool, version_line: &str, name: &str) -> (out: String)
    ensures
        out@ == help_header(full_command, version_line@, name@),
{
    let mut out = String::new();
    if full_command {
        push_str(&mut out, "Version: `");
        push_str(&mut out, version_line);
        push_str(&mut out, "`\n\n");
        assert(out@ =~= help_header(full_command, version_line@, name@));
    } else {
        let section = render_help_section(full_command, name);
        push_str(&mut out, "<br><br><br>\n## ");
        push_str(&mut out, section.as_str());
        push_str(&mut out, "\n");
        assert(out@ =~= help_header(full_command, version_line@, name@));
    }
    out
}

} // verus!
