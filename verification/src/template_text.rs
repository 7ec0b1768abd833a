//! Text pieces shared by the template renderers: indentation, comment lines,
//! blank-line separated blocks and the lists of included files.

use vstd::prelude::*;
use crate::path::join_with;
use crate::quote::{json_string_literal, quote_text};

verus! {

/// Two spaces per nesting level.
pub open spec fn spaces(depth: nat) -> Seq<char> {
    Seq::new(2 * depth, |_i: int| ' ')
}

/// One more level of indentation.
pub proof fn lemma_spaces_step(depth: nat)
    ensures
        spaces(depth) + "  "@ == spaces(depth + 1),
{
    reveal_strlit("  ");
    assert(spaces(depth) + "  "@ =~= spaces(depth + 1));
}

/// Blocks separated by one blank line: each block ends with a line break,
/// and a further line break goes between consecutive blocks.
pub open spec fn blocks_text(blocks: Seq<Seq<char>>) -> Seq<char> {
    join_with(blocks, '\n')
}

/// Adding a block appends a separating line break (unless it is the first)
/// and the block.
pub proof fn lemma_blocks_push(blocks: Seq<Seq<char>>, b: Seq<char>)
    ensures
        blocks_text(blocks.push(b)) == (if blocks.len() == 0 {
            b
        } else {
            blocks_text(blocks).push('\n') + b
        }),
{
    assert(blocks.push(b).drop_last() =~= blocks);
}

/// Comment lines for documentation: each line is the indentation, the
/// comment marker and the line's text.
pub open spec fn comment_lines(indent: Seq<char>, marker: Seq<char>, doc: Seq<Seq<char>>) -> Seq<char>
    decreases doc.len(),
{
    if doc.len() == 0 {
        Seq::empty()
    } else {
        comment_lines(indent, marker, doc.drop_last()) + indent + marker + doc.last() + "\n"@
    }
}

/// Appends one comment line per documentation line.
pub fn append_comment_lines(output: &mut String, indent: &str, marker: &str, doc: &Vec<String>)
    ensures
        final(output)@ == old(output)@ + comment_lines(indent@, marker@, doc.deep_view()),
{
    let ghost start = output@;
    let mut i: usize = 0;
    proof {
        assert(doc.deep_view().take(0) =~= Seq::<Seq<char>>::empty());
        assert(output@ =~= start + comment_lines(indent@, marker@, doc.deep_view().take(0)));
    }
    while i < doc.len()
        invariant
            i <= doc@.len(),
            output@ == start + comment_lines(indent@, marker@, doc.deep_view().take(i as int)),
        decreases doc@.len() - i,
    {
        output.append(indent);
        output.append(marker);
        output.append(doc[i].as_str());
        output.append("\n");
        proof {
            let t = doc.deep_view().take(i + 1);
            assert(t.drop_last() =~= doc.deep_view().take(i as int));
            assert(t.last() == doc@[i as int]@);
            assert(output@ =~= start + comment_lines(indent@, marker@, t));
        }
        i = i + 1;
    }
    proof {
        assert(doc.deep_view().take(doc@.len() as int) =~= doc.deep_view());
    }
}

/// One line per path: the indentation, the prefix, the quoted path and the
/// suffix.
pub open spec fn quoted_lines(indent: Seq<char>, prefix: Seq<char>, suffix: Seq<char>, paths: Seq<Seq<char>>) -> Seq<char>
    decreases paths.len(),
{
    if paths.len() == 0 {
        Seq::empty()
    } else {
        quoted_lines(indent, prefix, suffix, paths.drop_last()) + indent + prefix + json_string_literal(paths.last())
            + suffix
    }
}

/// Appends one line per path.
pub fn append_quoted_lines(output: &mut String, indent: &str, prefix: &str, suffix: &str, paths: &Vec<String>)
    ensures
        final(output)@ == old(output)@ + quoted_lines(indent@, prefix@, suffix@, paths.deep_view()),
{
    let ghost start = output@;
    let mut i: usize = 0;
    proof {
        assert(paths.deep_view().take(0) =~= Seq::<Seq<char>>::empty());
        assert(output@ =~= start + quoted_lines(indent@, prefix@, suffix@, paths.deep_view().take(0)));
    }
    while i < paths.len()
        invariant
            i <= paths@.len(),
            output@ == start + quoted_lines(indent@, prefix@, suffix@, paths.deep_view().take(i as int)),
        decreases paths@.len() - i,
    {
        output.append(indent);
        output.append(prefix);
        let q = quote_text(paths[i].as_str());
        output.append(q.as_str());
        output.append(suffix);
        proof {
            let t = paths.deep_view().take(i + 1);
            assert(t.drop_last() =~= paths.deep_view().take(i as int));
            assert(t.last() == paths@[i as int]@);
            assert(output@ =~= start + quoted_lines(indent@, prefix@, suffix@, t));
        }
        i = i + 1;
    }
    proof {
        assert(paths.deep_view().take(paths@.len() as int) =~= paths.deep_view());
    }
}

/// Quoted paths separated by `, `.
pub open spec fn quoted_list(paths: Seq<Seq<char>>) -> Seq<char>
    decreases paths.len(),
{
    if paths.len() == 0 {
        Seq::empty()
    } else if paths.len() == 1 {
        json_string_literal(paths[0])
    } else {
        quoted_list(paths.drop_last()) + ", "@ + json_string_literal(paths.last())
    }
}

/// Renders quoted paths separated by `, `.
pub fn render_quoted_list(paths: &Vec<String>) -> (r: String)
    ensures
        r@ == quoted_list(paths.deep_view()),
{
    let mut out = String::new();
    let mut i: usize = 0;
    proof {
        assert(paths.deep_view().take(0) =~= Seq::<Seq<char>>::empty());
    }
    while i < paths.len()
        invariant
            i <= paths@.len(),
            out@ == quoted_list(paths.deep_view().take(i as int)),
        decreases paths@.len() - i,
    {
        if i > 0 {
            out.append(", ");
        }
        let q = quote_text(paths[i].as_str());
        out.append(q.as_str());
        proof {
            let t = paths.deep_view().take(i + 1);
            assert(t.drop_last() =~= paths.deep_view().take(i as int));
            assert(t.last() == paths@[i as int]@);
            if i == 0 {
                assert(t.len() == 1 && t[0] == paths@[0]@);
                assert(out@ =~= quoted_list(t));
            } else {
                assert(out@ =~= quoted_list(t));
            }
        }
        i = i + 1;
    }
    proof {
        assert(paths.deep_view().take(paths@.len() as int) =~= paths.deep_view());
    }
    out
}

/// The YAML list of included files.
pub open spec fn yaml_include_text(paths: Seq<Seq<char>>) -> Seq<char> {
    "include:\n"@ + quoted_lines(""@, "  - "@, "\n"@, paths)
}

/// The TOML list of included files, on one line.
pub open spec fn toml_include_text(paths: Seq<Seq<char>>) -> Seq<char> {
    "include = ["@ + quoted_list(paths) + "]\n"@
}

/// The JSON5 list of included files at the top level of an object.
pub open spec fn json5_include_text(paths: Seq<Seq<char>>) -> Seq<char> {
    "  include: [\n"@ + quoted_lines(""@, "    "@, ",\n"@, paths) + "  ],\n"@
}

/// Renders a YAML top-level list of included files.
pub fn render_yaml_include(paths: &Vec<String>) -> (r: String)
    ensures
        r@ == yaml_include_text(paths.deep_view()),
{
    let mut out = String::from_str("include:\n");
    append_quoted_lines(&mut out, "", "  - ", "\n", paths);
    out
}

/// Renders a TOML top-level list of included files.
pub fn render_toml_include(paths: &Vec<String>) -> (r: String)
    ensures
        r@ == toml_include_text(paths.deep_view()),
{
    let mut out = String::from_str("include = [");
    let list = render_quoted_list(paths);
    out.append(list.as_str());
    out.append("]\n");
    out
}

/// Renders a JSON5 top-level list of included files.
pub fn render_json5_include(paths: &Vec<String>) -> (r: String)
    ensures
        r@ == json5_include_text(paths.deep_view()),
{
    let mut out = String::from_str("  include: [\n");
    append_quoted_lines(&mut out, "", "    ", ",\n", paths);
    out.append("  ],\n");
    out
}

} // verus!
