//! The receiver as a per-user background service: the files that launchd and systemd read.
use vstd::prelude::*;
use crate::text::{cat3, chars_of};

verus! {

/// What one character of XML element text is written as.
pub open spec fn xml_char(c: char) -> Seq<char> {
    if c == '&' {
        "&amp;"@
    } else if c == '<' {
        "&lt;"@
    } else if c == '>' {
        "&gt;"@
    } else {
        seq![c]
    }
}

/// A text written as XML element text.
pub open spec fn xml_text(s: Seq<char>) -> Seq<char>
    decreases s.len(),
{
    if s.len() == 0 {
        Seq::empty()
    } else {
        xml_text(s.drop_last()) + xml_char(s.last())
    }
}

/// Escape a text for an XML element.
pub fn xml_escape(s: &str) -> (r: String)
    ensures
        r@ == xml_text(s@),
{
    let v = chars_of(s);
    let mut out = String::new();
    let mut i: usize = 0;
    assert(s@.take(0) =~= Seq::<char>::empty());
    while i < v.len()
        invariant
            0 <= i <= v.len(),
            v@ == s@,
            out@ == xml_text(s@.take(i as int)),
        decreases v.len() - i,
    {
        let c = v[i];
        let ghost held = out@;
        assert(s@.take(i + 1).drop_last() =~= s@.take(i as int));
        if c == '&' {
            out.append("&amp;");
        } else if c == '<' {
            out.append("&lt;");
        } else if c == '>' {
            out.append("&gt;");
        } else {
            out.push(c);
        }
        assert(out@ =~= held + xml_char(c));
        i = i + 1;
    }
    assert(s@.take(v.len() as int) =~= s@);
    out
}

/// Escaped text opens and closes no element.
pub proof fn law_escaped_text_holds_no_markup(s: Seq<char>)
    ensures
        !xml_text(s).contains('<'),
        !xml_text(s).contains('>'),
    decreases s.len(),
{
    if s.len() > 0 {
        law_escaped_text_holds_no_markup(s.drop_last());
        let head = xml_text(s.drop_last());
        let tail = xml_char(s.last());
        reveal_strlit("&amp;");
        reveal_strlit("&lt;");
        reveal_strlit("&gt;");
        assert forall|i: int| 0 <= i < (head + tail).len() implies (head + tail)[i] != '<' && (head
            + tail)[i] != '>' by {
            if i < head.len() {
                assert(head.contains(head[i]));
            }
        }
    }
}

/// What one character of a quoted `ExecStart` token is written as.
pub open spec fn exec_char(c: char) -> Seq<char> {
    if c == '\\' {
        seq!['\\', '\\']
    } else if c == '"' {
        seq!['\\', '"']
    } else if c == '%' {
        seq!['%', '%']
    } else {
        seq![c]
    }
}

/// A text as it stands inside the quotes of an `ExecStart` token.
pub open spec fn exec_text(s: Seq<char>) -> Seq<char>
    decreases s.len(),
{
    if s.len() == 0 {
        Seq::empty()
    } else {
        exec_text(s.drop_last()) + exec_char(s.last())
    }
}

/// Write a path as one `ExecStart` token: it is quoted, a percent sign is doubled, and a backslash
/// and a quote are escaped.
pub fn systemd_exec_arg(path: &str) -> (r: String)
    ensures
        r@ == "\""@ + exec_text(path@) + "\""@,
{
    let v = chars_of(path);
    let mut out = String::new();
    let mut i: usize = 0;
    assert(path@.take(0) =~= Seq::<char>::empty());
    while i < v.len()
        invariant
            0 <= i <= v.len(),
            v@ == path@,
            out@ == exec_text(path@.take(i as int)),
        decreases v.len() - i,
    {
        let c = v[i];
        let ghost held = out@;
        assert(path@.take(i + 1).drop_last() =~= path@.take(i as int));
        if c == '\\' {
            out.push('\\');
            out.push('\\');
        } else if c == '"' {
            out.push('\\');
            out.push('"');
        } else if c == '%' {
            out.push('%');
            out.push('%');
        } else {
            out.push(c);
        }
        assert(out@ =~= held + exec_char(c));
        i = i + 1;
    }
    assert(path@.take(v.len() as int) =~= path@);
    cat3("\"", &out, "\"")
}

/// What the inside of a quoted token stands for: a backslash gives the character behind it, and a
/// doubled percent sign one of them. `None` where a quote ends the token early or something is left
/// half written.
pub open spec fn exec_read(s: Seq<char>) -> Option<Seq<char>>
    decreases s.len(),
{
    if s.len() == 0 {
        Some(Seq::empty())
    } else if s[0] == '\\' || s[0] == '%' {
        if s.len() < 2 || (s[0] == '%' && s[1] != '%') {
            None
        } else {
            match exec_read(s.skip(2)) {
                Some(rest) => Some(seq![s[1]] + rest),
                None => None,
            }
        }
    } else if s[0] == '"' {
        None
    } else {
        match exec_read(s.skip(1)) {
            Some(rest) => Some(seq![s[0]] + rest),
            None => None,
        }
    }
}

proof fn lemma_exec_text_first(s: Seq<char>)
    requires
        s.len() > 0,
    ensures
        exec_text(s) == exec_char(s[0]) + exec_text(s.skip(1)),
    decreases s.len(),
{
    if s.len() == 1 {
        assert(s.drop_last() =~= Seq::<char>::empty());
        assert(s.skip(1) =~= Seq::<char>::empty());
        assert(exec_text(s.drop_last()) =~= Seq::<char>::empty());
        assert(exec_text(s) =~= exec_char(s[0]) + exec_text(s.skip(1)));
    } else {
        lemma_exec_text_first(s.drop_last());
        assert(s.drop_last().skip(1) =~= s.skip(1).drop_last());
        assert(s.skip(1).last() == s.last());
        assert(exec_text(s) =~= exec_char(s[0]) + exec_text(s.skip(1)));
    }
}

/// A written token stands for the path it was written from, whatever spaces, quotes, backslashes or
/// percent signs the path holds.
pub proof fn law_a_token_stands_for_its_path(path: Seq<char>)
    ensures
        exec_read(exec_text(path)) == Some(path),
    decreases path.len(),
{
    if path.len() == 0 {
        assert(path =~= Seq::<char>::empty());
    } else {
        lemma_exec_text_first(path);
        law_a_token_stands_for_its_path(path.skip(1));
        let c = path[0];
        let text = exec_text(path);
        let rest = exec_text(path.skip(1));
        assert(seq![c] + path.skip(1) =~= path);
        if c == '\\' || c == '"' || c == '%' {
            assert(text.skip(2) =~= rest);
            assert(text[1] == c);
        } else {
            assert(text.skip(1) =~= rest);
        }
    }
}

/// The head of a launchd agent file, up to the path of the program.
pub open spec fn plist_head() -> Seq<char> {
    "<?xml version=\"1.0\" encoding=\"UTF-8\"?>\n<!DOCTYPE plist PUBLIC \"-//Apple//DTD PLIST 1.0//EN\" \"http://www.apple.com/DTDs/PropertyList-1.0.dtd\">\n<plist version=\"1.0\"><dict>\n  <key>Label</key><string>dev.hatel</string>\n  <key>ProgramArguments</key>\n  <array><string>"@
}

/// The rest of a launchd agent file.
pub open spec fn plist_tail() -> Seq<char> {
    "</string><string>serve</string><string>--all</string></array>\n  <key>RunAtLoad</key><true/>\n  <key>KeepAlive</key><true/>\n</dict></plist>\n"@
}

/// The launchd agent that runs a program as the receiver.
pub fn launchd_plist(exe: &str) -> (r: String)
    ensures
        r@ == plist_head() + xml_text(exe@) + plist_tail(),
{
    cat3(
        "<?xml version=\"1.0\" encoding=\"UTF-8\"?>\n<!DOCTYPE plist PUBLIC \"-//Apple//DTD PLIST 1.0//EN\" \"http://www.apple.com/DTDs/PropertyList-1.0.dtd\">\n<plist version=\"1.0\"><dict>\n  <key>Label</key><string>dev.hatel</string>\n  <key>ProgramArguments</key>\n  <array><string>",
        &xml_escape(exe),
        "</string><string>serve</string><string>--all</string></array>\n  <key>RunAtLoad</key><true/>\n  <key>KeepAlive</key><true/>\n</dict></plist>\n",
    )
}

/// The systemd user unit that runs a program as the receiver.
pub fn systemd_unit(exe: &str) -> (r: String)
    ensures
        r@ == "[Unit]\nDescription=hatel receiver\n\n[Service]\nExecStart="@ + ("\""@ + exec_text(
            exe@,
        ) + "\""@) + " serve --all\nRestart=always\n\n[Install]\nWantedBy=default.target\n"@,
{
    cat3(
        "[Unit]\nDescription=hatel receiver\n\n[Service]\nExecStart=",
        &systemd_exec_arg(exe),
        " serve --all\nRestart=always\n\n[Install]\nWantedBy=default.target\n",
    )
}

} // verus!
