//! The state of the mesh, for others to read.
use vstd::prelude::*;
use vstd::string::*;

use crate::mesh::address::address_text;
use crate::mesh::babel::RoutingState;
use crate::mesh::link::{link_views, LinkView, MeshLink};
use crate::mesh::Config;
use crate::text::{chars, digit, digit_value, digits_value, hex, hex_padded, owned, padded};

verus! {

/// A character in a JSON text.
pub open spec fn escaped(c: char) -> Seq<char> {
    if c == '"' {
        seq!['\\', '"']
    } else if c == '\\' {
        seq!['\\', '\\']
    } else if c == '\n' {
        seq!['\\', 'n']
    } else if c == '\r' {
        seq!['\\', 'r']
    } else if c == '\t' {
        seq!['\\', 't']
    } else if c <= '\u{1f}' {
        seq!['\\', 'u'] + padded(hex(c as int), 4, '0')
    } else {
        seq![c]
    }
}

/// The characters of a text in a JSON text.
pub open spec fn escaped_text(s: Seq<char>) -> Seq<char>
    decreases s.len(),
{
    if s.len() == 0 {
        Seq::empty()
    } else {
        escaped_text(s.drop_last()) + escaped(s.last())
    }
}

/// A text as JSON.
pub open spec fn json_text(s: Seq<char>) -> Seq<char> {
    seq!['"'] + escaped_text(s) + seq!['"']
}

fn control_code(c: char) -> (r: u64)
    requires
        c <= '\u{1f}',
    ensures
        r == c as int,
{
    c as u8 as u64
}

/// A text as JSON.
pub fn json_string(value: &str) -> (s: String)
    ensures
        s@ == json_text(value@),
{
    let v = chars(value);
    let mut out = String::new();
    out.push('"');
    let mut i: usize = 0;
    assert(v@.take(0) =~= Seq::<char>::empty());
    assert(out@ =~= seq!['"'] + escaped_text(v@.take(0)));
    while i < v.len()
        invariant
            i <= v@.len(),
            out@ == seq!['"'] + escaped_text(v@.take(i as int)),
        decreases v@.len() - i,
    {
        assert(v@.take(i + 1).drop_last() =~= v@.take(i as int));
        let c = v[i];
        let ghost before = out@;
        if c == '"' {
            out.push('\\');
            out.push('"');
        } else if c == '\\' {
            out.push('\\');
            out.push('\\');
        } else if c == '\n' {
            out.push('\\');
            out.push('n');
        } else if c == '\r' {
            out.push('\\');
            out.push('r');
        } else if c == '\t' {
            out.push('\\');
            out.push('t');
        } else if c <= '\u{1f}' {
            out.push('\\');
            out.push('u');
            out.append(hex_padded(control_code(c), 4).as_str());
        } else {
            out.push(c);
        }
        assert(out@ =~= before + escaped(c));
        i += 1;
        assert(out@ =~= seq!['"'] + escaped_text(v@.take(i as int)));
    }
    assert(v@.take(i as int) =~= v@);
    out.push('"');
    assert(out@ =~= json_text(value@));
    out
}

/// A link as JSON.
pub open spec fn link_json(link: LinkView, is_last: bool) -> Seq<char> {
    "    {\n"@ + "      \"name\": "@ + json_text(link.name) + ",\n"@ + "      \"kind\": "@ + json_text(
        link.kind.words(),
    ) + ",\n"@ + "      \"up\": true\n"@ + "    }"@ + (if is_last {
        ""@
    } else {
        ","@
    }) + "\n"@
}

/// The first `n` links as JSON.
pub open spec fn links_json(links: Seq<LinkView>, n: int) -> Seq<char>
    decreases n,
{
    if n <= 0 {
        Seq::empty()
    } else {
        links_json(links, n - 1) + link_json(links[n - 1], n == links.len())
    }
}

/// A truth value as JSON.
pub open spec fn bool_text(b: bool) -> Seq<char> {
    if b {
        "true"@
    } else {
        "false"@
    }
}

fn bool_words(b: bool) -> (s: &'static str)
    ensures
        s@ == bool_text(b),
{
    if b {
        "true"
    } else {
        "false"
    }
}

/// The state of the mesh as JSON.
pub open spec fn status_json(
    node_id: Seq<char>,
    octets: Seq<u8>,
    links: Seq<LinkView>,
    backend: Seq<char>,
    running: bool,
    available: bool,
) -> Seq<char> {
    "{\n"@ + "  \"enabled\": true,\n"@ + "  \"node_id\": "@ + json_text(node_id) + ",\n"@
        + "  \"ula\": "@ + json_text(address_text(octets)) + ",\n"@ + "  \"links\": ["@ + (
    if links.len() == 0 {
        "],\n"@
    } else {
        "\n"@ + links_json(links, links.len() as int) + "  ],\n"@
    }) + "  \"routing\": {\n"@ + "    \"backend\": "@ + json_text(backend) + ",\n"@
        + "    \"running\": "@ + bool_text(running) + ",\n"@ + "    \"available\": "@ + bool_text(
        available,
    ) + "\n"@ + "  }\n"@ + "}\n"@
}

/// The state of the mesh as JSON.
pub fn build_status_json(config: &Config, links: &[MeshLink], routing: &RoutingState) -> (s: String)
    requires
        config.identity.ula_addr.octets@[0] != 0,
    ensures
        s@ == status_json(
            config.identity.node_id_hex@,
            config.identity.ula_addr.octets@,
            link_views(links@),
            routing.backend@,
            routing.running,
            routing.available,
        ),
{
    let ghost views = link_views(links@);
    let mut out = owned("{\n");
    out.append("  \"enabled\": true,\n");
    out.append("  \"node_id\": ");
    out.append(json_string(config.identity.node_id_hex.as_str()).as_str());
    out.append(",\n");
    out.append("  \"ula\": ");
    out.append(json_string(config.identity.ula_addr.to_text().as_str()).as_str());
    out.append(",\n");
    out.append("  \"links\": [");
    let ghost head = out@;
    if links.len() == 0 {
        out.append("],\n");
    } else {
        out.append("\n");
        let ghost start = out@;
        let mut i: usize = 0;
        assert(out@ =~= start + links_json(views, 0));
        while i < links.len()
            invariant
                i <= links@.len(),
                views == link_views(links@),
                out@ == start + links_json(views, i as int),
            decreases links@.len() - i,
        {
            let ghost before = out@;
            out.append("    {\n");
            out.append("      \"name\": ");
            out.append(json_string(links[i].name.as_str()).as_str());
            out.append(",\n");
            out.append("      \"kind\": ");
            out.append(json_string(links[i].kind.label()).as_str());
            out.append(",\n");
            out.append("      \"up\": true\n");
            out.append("    }");
            if i + 1 < links.len() {
                out.append(",");
            } else {
                out.append("");
            }
            out.append("\n");
            i += 1;
            assert(out@ =~= before + link_json(views[i - 1], i == views.len()));
            assert(out@ =~= start + links_json(views, i as int));
        }
        out.append("  ],\n");
        assert(out@ =~= head + ("\n"@ + links_json(views, views.len() as int) + "  ],\n"@));
    }
    let ghost middle = out@;
    out.append("  \"routing\": {\n");
    out.append("    \"backend\": ");
    out.append(json_string(routing.backend).as_str());
    out.append(",\n");
    out.append("    \"running\": ");
    out.append(bool_words(routing.running));
    out.append(",\n");
    out.append("    \"available\": ");
    out.append(bool_words(routing.available));
    out.append("\n");
    out.append("  }\n");
    out.append("}\n");
    assert(out@ =~= status_json(
        config.identity.node_id_hex@,
        config.identity.ula_addr.octets@,
        views,
        routing.backend@,
        routing.running,
        routing.available,
    ));
    out
}

/// What a text in JSON means, read from the place `i` on, up to the quote that ends it.
pub open spec fn meaning(s: Seq<char>, i: int) -> Option<Seq<char>>
    decreases s.len() - i,
{
    if i < 0 || i >= s.len() || s[i] <= '\u{1f}' {
        None
    } else if s[i] == '"' {
        if i + 1 == s.len() {
            Some(Seq::empty())
        } else {
            None
        }
    } else if s[i] != '\\' {
        match meaning(s, i + 1) {
            None => None,
            Some(rest) => Some(seq![s[i]] + rest),
        }
    } else if i + 1 >= s.len() {
        None
    } else if s[i + 1] == 'u' {
        if i + 5 >= s.len() {
            None
        } else {
            match (code_of(s.subrange(i + 2, i + 6)), meaning(s, i + 6)) {
                (Some(c), Some(rest)) => Some(seq![c] + rest),
                _ => None,
            }
        }
    } else {
        match (short_escape(s[i + 1]), meaning(s, i + 2)) {
            (Some(c), Some(rest)) => Some(seq![c] + rest),
            _ => None,
        }
    }
}

/// The character that a letter behind a backslash means.
pub open spec fn short_escape(c: char) -> Option<char> {
    if c == '"' {
        Some('"')
    } else if c == '\\' {
        Some('\\')
    } else if c == 'n' {
        Some('\n')
    } else if c == 'r' {
        Some('\r')
    } else if c == 't' {
        Some('\t')
    } else {
        None
    }
}

/// The character that four digits mean.
pub open spec fn code_of(digits: Seq<char>) -> Option<char> {
    match digits_value(digits, 16) {
        Some(value) => Some(value as char),
        None => None,
    }
}

/// The characters of a text in a JSON text, from its front.
pub open spec fn escaped_front(s: Seq<char>) -> Seq<char>
    decreases s.len(),
{
    if s.len() == 0 {
        Seq::empty()
    } else {
        escaped(s[0]) + escaped_front(s.skip(1))
    }
}

proof fn lemma_escaped_front(s: Seq<char>)
    ensures
        escaped_text(s) == escaped_front(s),
    decreases s.len(),
{
    if s.len() == 0 {
    } else if s.len() == 1 {
        assert(s.drop_last() =~= Seq::<char>::empty());
        assert(s.skip(1) =~= Seq::<char>::empty());
        assert(escaped_text(s.drop_last()) =~= Seq::<char>::empty());
        assert(escaped_front(s.skip(1)) =~= Seq::<char>::empty());
        assert(escaped_text(s) =~= escaped_front(s));
    } else {
        lemma_escaped_front(s.drop_last());
        lemma_escaped_front(s.skip(1));
        lemma_escaped_front(s.drop_last().skip(1));
        assert(s.drop_last().skip(1) =~= s.skip(1).drop_last());
        let inner = s.skip(1).drop_last();
        assert(s.drop_last()[0] == s[0]);
        assert(s.skip(1).last() == s.last());
        assert(escaped_front(s.drop_last()) == escaped(s[0]) + escaped_front(inner));
        assert(escaped_text(s.skip(1)) == escaped_text(inner) + escaped(s.last()));
        assert(escaped_text(s) =~= escaped(s[0]) + (escaped_front(inner) + escaped(s.last())));
    }
}

proof fn lemma_control_code(c: char)
    requires
        c <= '\u{1f}',
    ensures
        padded(hex(c as int), 4, '0').len() == 4,
        code_of(padded(hex(c as int), 4, '0')) == Some(c),
{
    let n = c as int;
    reveal_with_fuel(hex, 3);
    reveal_with_fuel(digits_value, 6);
    let d = padded(hex(n), 4, '0');
    let front = if n < 16 {
        '0'
    } else {
        '1'
    };
    assert(n / 16 <= 1);
    assert(d =~= seq!['0', '0', front, digit(n % 16)]);
    assert(d.drop_last() =~= seq!['0', '0', front]);
    assert(d.drop_last().drop_last() =~= seq!['0', '0']);
    assert(d.drop_last().drop_last().drop_last() =~= seq!['0']);
    assert(d.drop_last().drop_last().drop_last().drop_last() =~= Seq::<char>::empty());
    assert(digit_value(digit(n % 16), 16) == Some((n % 16) as nat));
    assert(digits_value(d, 16) == Some(n as nat));
}

proof fn lemma_meaning(s: Seq<char>, before: Seq<char>)
    ensures
        meaning(before + escaped_front(s) + seq!['"'], before.len() as int) == Some(s),
    decreases s.len(),
{
    let whole = before + escaped_front(s) + seq!['"'];
    let i = before.len() as int;
    if s.len() == 0 {
        assert(whole[i] == '"');
        assert(s =~= Seq::<char>::empty());
    } else {
        let c = s[0];
        let e = escaped(c);
        if c <= '\u{1f}' {
            lemma_control_code(c);
        }
        lemma_meaning(s.skip(1), before + e);
        assert(before + e + escaped_front(s.skip(1)) + seq!['"'] =~= whole);
        assert(forall|k: int| 0 <= k < e.len() ==> whole[i + k] == e[k]);
        assert(seq![c] + s.skip(1) =~= s);
        assert(whole[i] == e[0]);
        if c == '"' || c == '\\' || c == '\n' || c == '\r' || c == '\t' {
            assert(whole[i + 1] == e[1]);
            assert(e.len() == 2);
        } else if c <= '\u{1f}' {
            assert(whole[i + 1] == e[1]);
            assert(e.len() == 6);
            assert(whole.subrange(i + 2, i + 6) =~= padded(hex(c as int), 4, '0'));
        } else {
            assert(e.len() == 1);
        }
    }
}

/// A text is read back from its JSON as it was, whatever characters it holds.
pub proof fn law_json_texts_are_read_back(s: Seq<char>)
    ensures
        json_text(s)[0] == '"',
        meaning(json_text(s), 1) == Some(s),
{
    lemma_escaped_front(s);
    lemma_meaning(s, seq!['"']);
}

} // verus!
