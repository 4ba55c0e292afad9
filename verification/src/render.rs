//! The text that takes the place of an import statement.

use crate::text::{
    are_lines, ends_with_newline, has_final_newline, is_one_line, join_lines, lemma_lines_are_lines,
    lemma_lines_of_text, lines, push_all, push_str, split_lines, text_of_lines, views_of,
};
use vstd::prelude::*;

verus! {

/// The line `line` behind the indentation `indent`; an empty line stays
/// empty.
pub open spec fn indent_line(line: Seq<char>, indent: Seq<char>) -> Seq<char> {
    if line.len() == 0 {
        line
    } else {
        indent + line
    }
}

/// Each line of `ls` behind the indentation `indent`.
pub open spec fn indent_lines(ls: Seq<Seq<char>>, indent: Seq<char>) -> Seq<Seq<char>> {
    Seq::new(ls.len(), |k: int| indent_line(ls[k], indent))
}

/// The text `body` with each of its lines behind the indentation `indent`:
/// empty lines stay empty, and the text ends with a line feed if and only if
/// `body` does.
pub open spec fn reindented(body: Seq<char>, indent: Seq<char>) -> Seq<char> {
    text_of_lines(indent_lines(lines(body), indent), ends_with_newline(body))
}

/// Puts each line of `body` behind the indentation `indent`.
pub fn reindent(body: &[char], indent: &[char]) -> (out: Vec<char>)
    ensures
        out@ == reindented(body@, indent@),
{
    let ls = split_lines(body);
    let mut moved: Vec<Vec<char>> = Vec::new();
    let mut k: usize = 0;
    while k < ls.len()
        invariant
            k <= ls@.len(),
            moved@.len() == k,
            forall|j: int| 0 <= j < k ==> moved@[j]@ == indent_line(ls@[j]@, indent@),
        decreases ls@.len() - k,
    {
        let mut line: Vec<char> = Vec::new();
        if ls[k].len() > 0 {
            push_all(&mut line, indent);
        }
        push_all(&mut line, ls[k].as_slice());
        proof {
            assert(Seq::<char>::empty() + indent@ == indent@);
            assert(Seq::<char>::empty() + ls@[k as int]@ == ls@[k as int]@);
        }
        moved.push(line);
        k += 1;
    }
    assert(views_of(moved@) =~= indent_lines(views_of(ls@), indent@));
    join_lines(&moved, has_final_newline(body))
}

/// The word that a marker uses for an inlined package or module.
pub open spec fn inlined_kind(is_package: bool) -> Seq<char> {
    if is_package {
        "package"@
    } else {
        "submodule"@
    }
}

/// What takes the place of the import of a module that is inlined here: the
/// module's text `body` behind the statement's indentation and a line feed
/// after it. Unless `release` is set, a marker line stands before it and one
/// after it, each behind the indentation and naming the module reference.
pub open spec fn inlined_block(
    indent: Seq<char>,
    module: Seq<char>,
    is_package: bool,
    body: Seq<char>,
    release: bool,
) -> Seq<char> {
    if release {
        reindented(body, indent) + seq!['\n']
    } else {
        indent + "# ↓↓↓ inlined "@ + inlined_kind(is_package) + ": "@ + module + seq!['\n']
            + reindented(body, indent) + seq!['\n'] + indent + "# ↑↑↑ inlined "@ + inlined_kind(
            is_package,
        ) + ": "@ + module + seq!['\n']
    }
}

/// What takes the place of the import of a module that was inlined before:
/// nothing where `release` is set, else one marker line behind the
/// statement's indentation.
pub open spec fn repeated_marker(indent: Seq<char>, module: Seq<char>, release: bool) -> Seq<
    char,
> {
    if release {
        Seq::empty()
    } else {
        indent + "# →→ "@ + module + " ←← already inlined"@ + seq!['\n']
    }
}

/// Appends [`inlined_block`] to `out`.
pub fn push_inlined_block(
    out: &mut Vec<char>,
    indent: &[char],
    module: &[char],
    is_package: bool,
    body: &[char],
    release: bool,
)
    ensures
        final(out)@ == old(out)@ + inlined_block(indent@, module@, is_package, body@, release),
{
    let moved = reindent(body, indent);
    let ghost start = out@;
    let mut block: Vec<char> = Vec::new();
    if !release {
        push_all(&mut block, indent);
        push_str(&mut block, "# ↓↓↓ inlined ");
        if is_package {
            push_str(&mut block, "package");
        } else {
            push_str(&mut block, "submodule");
        }
        push_str(&mut block, ": ");
        push_all(&mut block, module);
        block.push('\n');
    }
    push_all(&mut block, moved.as_slice());
    block.push('\n');
    if !release {
        push_all(&mut block, indent);
        push_str(&mut block, "# ↑↑↑ inlined ");
        if is_package {
            push_str(&mut block, "package");
        } else {
            push_str(&mut block, "submodule");
        }
        push_str(&mut block, ": ");
        push_all(&mut block, module);
        block.push('\n');
    }
    assert(block@ =~= inlined_block(indent@, module@, is_package, body@, release));
    push_all(out, block.as_slice());
}

/// Appends [`repeated_marker`] to `out`.
pub fn push_repeated_marker(out: &mut Vec<char>, indent: &[char], module: &[char], release: bool)
    ensures
        final(out)@ == old(out)@ + repeated_marker(indent@, module@, release),
{
    let mut block: Vec<char> = Vec::new();
    if !release {
        push_all(&mut block, indent);
        push_str(&mut block, "# →→ ");
        push_all(&mut block, module);
        push_str(&mut block, " ←← already inlined");
        block.push('\n');
    }
    assert(block@ =~= repeated_marker(indent@, module@, release));
    push_all(out, block.as_slice());
}

/// The lines of the reindented text are the lines of the text, each behind
/// the indentation, and the empty ones as they were.
pub proof fn lemma_reindented_lines(body: Seq<char>, indent: Seq<char>)
    requires
        is_one_line(indent),
    ensures
        lines(reindented(body, indent)) == indent_lines(lines(body), indent),
{
    let ls = lines(body);
    let moved = indent_lines(ls, indent);
    lemma_lines_are_lines(body, 0);
    assert(are_lines(moved)) by {
        assert forall|k: int| 0 <= k < moved.len() implies is_one_line(#[trigger] moved[k]) by {
            assert(is_one_line(ls[k]));
        }
    }
    if !ends_with_newline(body) && ls.len() > 0 {
        assert(moved.last() == indent_line(ls.last(), indent));
    }
    lemma_lines_of_text(moved, ends_with_newline(body));
}

} // verus!
