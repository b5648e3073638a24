//! The master index: one summary document listing the current crate,
//! the workspace members, and the dependencies that were documented,
//! each entry linking to `<normalized-name>/index.md`.

use vstd::prelude::*;
use vstd::string::StringExecFns;
use crate::text::{normalized, normalize_separators, spec_dec, push_dec};

verus! {

/// One index entry: a link from the display name to the entry point of
/// that name's document tree, under the normalized directory name.
pub open spec fn spec_link_line(name: Seq<char>) -> Seq<char> {
    "- [`"@ + name + "`]("@ + normalized(name) + "/index.md)\n"@
}

/// The link lines of `names`, in order.
pub open spec fn spec_link_lines(names: Seq<String>) -> Seq<char>
    decreases names.len(),
{
    if names.len() == 0 {
        Seq::empty()
    } else {
        spec_link_lines(names.drop_last()) + spec_link_line(names.last()@)
    }
}

/// The entire master index document: a heading, then the current
/// crate, the workspace members (with their count) and the
/// dependencies (with their count), each section omitted when empty,
/// and a closing rule.
pub open spec fn spec_master_index(
    current: Option<String>,
    members: Seq<String>,
    deps: Seq<String>,
) -> Seq<char> {
    "# Documentation Index\n\n"@ + "Generated markdown documentation for this project.\n\n"@
        + (match current {
        Some(c) => "## Current Crate\n\n"@ + spec_link_line(c@) + "\n"@,
        None => Seq::<char>::empty(),
    }) + (if members.len() > 0 {
        "## Workspace Members ("@ + spec_dec(members.len()) + ")\n\n"@ + spec_link_lines(members)
            + "\n"@
    } else {
        Seq::<char>::empty()
    }) + (if deps.len() > 0 {
        "## Dependencies ("@ + spec_dec(deps.len()) + ")\n\n"@ + spec_link_lines(deps) + "\n"@
    } else {
        Seq::<char>::empty()
    }) + "---\n"@
}

/// The borrowed current-crate argument, as the value the spec speaks of.
pub open spec fn spec_current(current: Option<&String>) -> Option<String> {
    match current {
        Some(c) => Some(*c),
        None => None,
    }
}

/// Appends one link line.
fn push_link_line(s: &mut String, name: &String)
    ensures
        final(s)@ == old(s)@ + spec_link_line(name@),
{
    s.append("- [`");
    s.append(name.as_str());
    s.append("`](");
    let norm = normalize_separators(name.as_str());
    s.append(norm.as_str());
    s.append("/index.md)\n");
    proof {
        assert(s@ =~= old(s)@ + spec_link_line(name@));
    }
}

/// Appends the link lines of every name, in order.
fn push_link_lines(s: &mut String, names: &Vec<String>)
    ensures
        final(s)@ == old(s)@ + spec_link_lines(names@),
{
    let n = names.len();
    let mut i: usize = 0;
    while i < n
        invariant
            n == names@.len(),
            i <= n,
            s@ == old(s)@ + spec_link_lines(names@.take(i as int)),
        decreases n - i,
    {
        proof {
            assert(names@.take(i as int + 1).drop_last() =~= names@.take(i as int));
            assert(names@.take(i as int + 1).last() == names@[i as int]);
        }
        let ghost pre = s@;
        push_link_line(s, &names[i]);
        proof {
            assert(s@ =~= old(s)@ + spec_link_lines(names@.take(i as int + 1)));
        }
        i = i + 1;
    }
    proof {
        assert(names@.take(n as int) =~= names@);
    }
}

/// Appends the current-crate section.
fn push_current_section(s: &mut String, c: &String)
    ensures
        final(s)@ == old(s)@ + ("## Current Crate\n\n"@ + spec_link_line(c@) + "\n"@),
{
    s.append("## Current Crate\n\n");
    push_link_line(s, c);
    s.append("\n");
    proof {
        assert(s@ =~= old(s)@ + ("## Current Crate\n\n"@ + spec_link_line(c@) + "\n"@));
    }
}

/// Appends the workspace-members section, with its count.
fn push_members_section(s: &mut String, members: &Vec<String>)
    ensures
        final(s)@ == old(s)@ + ("## Workspace Members ("@ + spec_dec(members@.len())
            + ")\n\n"@ + spec_link_lines(members@) + "\n"@),
{
    s.append("## Workspace Members (");
    push_dec(s, members.len() as u64);
    s.append(")\n\n");
    push_link_lines(s, members);
    s.append("\n");
    proof {
        assert(s@ =~= old(s)@ + ("## Workspace Members ("@ + spec_dec(members@.len())
            + ")\n\n"@ + spec_link_lines(members@) + "\n"@));
    }
}

/// Appends the dependencies section, with its count.
fn push_deps_section(s: &mut String, deps: &Vec<String>)
    ensures
        final(s)@ == old(s)@ + ("## Dependencies ("@ + spec_dec(deps@.len()) + ")\n\n"@
            + spec_link_lines(deps@) + "\n"@),
{
    s.append("## Dependencies (");
    push_dec(s, deps.len() as u64);
    s.append(")\n\n");
    push_link_lines(s, deps);
    s.append("\n");
    proof {
        assert(s@ =~= old(s)@ + ("## Dependencies ("@ + spec_dec(deps@.len()) + ")\n\n"@
            + spec_link_lines(deps@) + "\n"@));
    }
}

/// Renders the master index for the names that were documented: the
/// current crate (if any), the workspace members, and the
/// dependencies, exactly as `spec_master_index` lays the document out.
pub fn generate_master_index(
    current: Option<&String>,
    members: &Vec<String>,
    deps: &Vec<String>,
) -> (r: String)
    ensures
        r@ == spec_master_index(spec_current(current), members@, deps@),
{
    let ghost head = "# Documentation Index\n\n"@
        + "Generated markdown documentation for this project.\n\n"@;
    let mut s = String::new();
    s.append("# Documentation Index\n\n");
    s.append("Generated markdown documentation for this project.\n\n");
    proof {
        assert(s@ =~= head);
    }
    let ghost cur_part = match spec_current(current) {
        Some(c) => "## Current Crate\n\n"@ + spec_link_line(c@) + "\n"@,
        None => Seq::<char>::empty(),
    };
    match current {
        Some(c) => {
            push_current_section(&mut s, c);
        },
        None => {},
    }
    proof {
        assert(s@ =~= head + cur_part);
    }
    let ghost mem_part = if members@.len() > 0 {
        "## Workspace Members ("@ + spec_dec(members@.len()) + ")\n\n"@ + spec_link_lines(
            members@,
        ) + "\n"@
    } else {
        Seq::<char>::empty()
    };
    if members.len() > 0 {
        push_members_section(&mut s, members);
    }
    proof {
        assert(s@ =~= head + cur_part + mem_part);
    }
    let ghost dep_part = if deps@.len() > 0 {
        "## Dependencies ("@ + spec_dec(deps@.len()) + ")\n\n"@ + spec_link_lines(deps@) + "\n"@
    } else {
        Seq::<char>::empty()
    };
    if deps.len() > 0 {
        push_deps_section(&mut s, deps);
    }
    proof {
        assert(s@ =~= head + cur_part + mem_part + dep_part);
    }
    s.append("---\n");
    proof {
        assert(s@ =~= head + cur_part + mem_part + dep_part + "---\n"@);
        assert(spec_master_index(spec_current(current), members@, deps@) == head + cur_part
            + mem_part + dep_part + "---\n"@);
    }
    s
}

} // verus!
