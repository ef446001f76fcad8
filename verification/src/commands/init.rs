//! Setting up the knowledge base: the names of imported files and the first
//! text of the overview document.

use vstd::prelude::*;
use crate::commands::compose::{relative_to};
use crate::text::{
    CharClass, chars_of, join, join_of, matches_at, push_str, rows, slice, split, split_of,
    string_of, strip_start, strip_start_of,
};

verus! {

/// The components of a path without their leading dots, those left out that
/// are then empty.
pub open spec fn flat_parts(parts: Seq<Seq<char>>) -> Seq<Seq<char>>
    decreases parts.len(),
{
    if parts.len() == 0 {
        Seq::empty()
    } else if strip_start(parts.last(), CharClass::Only('.')).len() > 0 {
        flat_parts(parts.drop_last()).push(strip_start(parts.last(), CharClass::Only('.')))
    } else {
        flat_parts(parts.drop_last())
    }
}

/// The flat name of a file inside the project: the components of its path
/// relative to the root, without their leading dots, joined by `-`. A path
/// that stays absolute keeps its root as a component of its own.
pub open spec fn flat_name(path: Seq<char>, root: Seq<char>) -> Seq<char> {
    let rel = relative_to(root, path);
    let parts = flat_parts(split(rel, '/'));
    join(
        if rel.len() > 0 && rel[0] == '/' {
            seq![seq!['/']] + parts
        } else {
            parts
        },
        seq!['-'],
    )
}

/// Converts the path of a file such as `.github/copilot-instructions.md`
/// into the flat name `github-copilot-instructions.md`.
pub fn flatten_name(path: &str, root: &str) -> (r: String)
    ensures
        r@ == flat_name(path@, root@),
{
    let p = chars_of(path);
    let prefix = crate::paths::join_path_of(&chars_of(root), "");
    proof {
        reveal_strlit("");
        assert(""@ =~= Seq::<char>::empty());
    }
    let rel = if matches_at(&p, &prefix, 0) {
        let r = slice(&p, prefix.len(), p.len());
        assert(r@ =~= p@.skip(prefix.len() as int));
        r
    } else {
        p
    };
    let parts = split_of(&rel, '/');
    let mut flat: Vec<Vec<char>> = Vec::new();
    let ghost lead: Seq<Seq<char>> = if rel.len() > 0 && rel@[0] == '/' {
        seq![seq!['/']]
    } else {
        Seq::empty()
    };
    if rel.len() > 0 && rel[0] == '/' {
        let mut slash: Vec<char> = Vec::new();
        slash.push('/');
        assert(slash@ =~= seq!['/']);
        flat.push(slash);
    }
    assert(rows(parts@).take(0) =~= Seq::<Seq<char>>::empty());
    assert(rows(flat@) =~= lead + flat_parts(rows(parts@).take(0)));
    let mut i: usize = 0;
    while i < parts.len()
        invariant
            i <= parts.len(),
            rows(flat@) == lead + flat_parts(rows(parts@).take(i as int)),
        decreases parts.len() - i,
    {
        let ghost next = rows(parts@).take(i + 1);
        assert(next.drop_last() =~= rows(parts@).take(i as int));
        assert(next.last() == parts@[i as int]@);
        let part = strip_start_of(&parts[i], CharClass::Only('.'));
        if part.len() > 0 {
            let ghost prev = flat@;
            flat.push(part);
            assert(rows(flat@) =~= rows(prev).push(next.last().skip(
                crate::text::span(next.last(), CharClass::Only('.')) as int,
            )));
            assert(rows(flat@) =~= lead + flat_parts(next));
        }
        i += 1;
    }
    assert(rows(parts@).take(parts.len() as int) =~= rows(parts@));
    assert(Seq::<Seq<char>>::empty() + flat_parts(rows(parts@)) =~= flat_parts(rows(parts@)));
    let mut sep: Vec<char> = Vec::new();
    sep.push('-');
    assert(sep@ =~= seq!['-']);
    string_of(&join_of(&flat, &sep))
}

/// The list entry of one imported file in the overview document.
pub open spec fn imported_entry(name: Seq<char>, description: Seq<char>) -> Seq<char> {
    "- [imported/"@ + name + "](imported/"@ + name + ") \u{2014} "@ + description + seq!['\n']
}

/// The list entries of the imported files.
pub open spec fn imported_entries(imported: Seq<(String, String)>) -> Seq<char>
    decreases imported.len(),
{
    if imported.len() == 0 {
        Seq::empty()
    } else {
        imported_entries(imported.drop_last()) + imported_entry(
            imported.last().0@,
            imported.last().1@,
        )
    }
}

/// The part of the overview document that lists the imported files;
/// nothing where there are none.
pub open spec fn imported_part(imported: Seq<(String, String)>) -> Seq<char> {
    if imported.len() == 0 {
        Seq::empty()
    } else {
        "### Imported Agent Config Files\n\nThese files were discovered in your project and imported automatically:\n\n"@
            + imported_entries(imported) + seq!['\n']
    }
}

/// The first text of the overview document of a project: its sections with
/// their placeholders, and the list of the imported files.
pub open spec fn catme_text(project_name: Seq<char>, imported: Seq<(String, String)>) -> Seq<char> {
    "# "@ + project_name
        + "\n\n> **Agent entry point.** Read this file first to orient yourself in the project.\n\n## Project Summary\n\n<!-- Describe what this project does and why it exists. One paragraph. -->\n\n## Technology Stack\n\n<!-- List the primary language, frameworks, and key dependencies. -->\n\n## Build & Test\n\n<!-- Exact commands to build, test, and lint the project. -->\n\n```sh\n# build\n# test\n# lint\n```\n\n## Navigation\n\nTopic documentation lives in `.llmd/`. Start here, then follow links.\n\n"@
        + imported_part(imported)
        + "## Rules of Engagement\n\n<!-- List architectural constraints and \"don't touch\" zones for agents. -->\n\n## Context Map\n\n<!-- Map project modules to their documentation. Example:\n- `src/auth/` \u{2192} [auth-flow.md](auth-flow.md)\n- `src/api/` \u{2192} [api-standards.md](api-standards.md)\n-->\n"@
}

/// Generates the first text of the overview document `catme.md`, for the
/// project of the given name and the imported files, each with the
/// description of its format.
pub fn generate_catme(project_name: &str, imported: &Vec<(String, String)>) -> (r: String)
    ensures
        r@ == catme_text(project_name@, imported@),
{
    let mut out = chars_of("# ");
    push_str(&mut out, project_name);
    push_str(
        &mut out,
        "\n\n> **Agent entry point.** Read this file first to orient yourself in the project.\n\n## Project Summary\n\n<!-- Describe what this project does and why it exists. One paragraph. -->\n\n## Technology Stack\n\n<!-- List the primary language, frameworks, and key dependencies. -->\n\n## Build & Test\n\n<!-- Exact commands to build, test, and lint the project. -->\n\n```sh\n# build\n# test\n# lint\n```\n\n## Navigation\n\nTopic documentation lives in `.llmd/`. Start here, then follow links.\n\n",
    );
    let ghost head = out@;
    if imported.len() > 0 {
        push_str(
            &mut out,
            "### Imported Agent Config Files\n\nThese files were discovered in your project and imported automatically:\n\n",
        );
        let ghost opened = out@;
        let mut i: usize = 0;
        assert(imported@.take(0) =~= Seq::<(String, String)>::empty());
        assert(out@ =~= opened + imported_entries(imported@.take(0)));
        while i < imported.len()
            invariant
                i <= imported.len(),
                out@ == opened + imported_entries(imported@.take(i as int)),
            decreases imported.len() - i,
        {
            let ghost before = out@;
            let ghost next = imported@.take(i + 1);
            assert(next.drop_last() =~= imported@.take(i as int));
            assert(next.last() == imported@[i as int]);
            push_str(&mut out, "- [imported/");
            push_str(&mut out, imported[i].0.as_str());
            push_str(&mut out, "](imported/");
            push_str(&mut out, imported[i].0.as_str());
            push_str(&mut out, ") \u{2014} ");
            push_str(&mut out, imported[i].1.as_str());
            out.push('\n');
            assert(out@ =~= before + imported_entry(imported@[i as int].0@, imported@[i as int].1@));
            assert(out@ =~= opened + imported_entries(next));
            i += 1;
        }
        assert(imported@.take(imported.len() as int) =~= imported@);
        out.push('\n');
        assert(out@ =~= head + imported_part(imported@));
    } else {
        assert(out@ =~= head + imported_part(imported@));
    }
    push_str(
        &mut out,
        "## Rules of Engagement\n\n<!-- List architectural constraints and \"don't touch\" zones for agents. -->\n\n## Context Map\n\n<!-- Map project modules to their documentation. Example:\n- `src/auth/` \u{2192} [auth-flow.md](auth-flow.md)\n- `src/api/` \u{2192} [api-standards.md](api-standards.md)\n-->\n",
    );
    assert(out@ =~= catme_text(project_name@, imported@));
    string_of(&out)
}

} // verus!
