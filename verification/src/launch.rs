//! How a selected application is started: in a terminal, through `gtk-launch`,
//! or by running its `Exec` line split like a POSIX shell would.
use vstd::prelude::*;
use vstd::string::*;

use crate::desktop::{AppEntry, AppView};
use crate::text::{chars_of, string_of_range};

verus! {

/// Name for what `shlex::split` returns for a command line: the words, or `None`
/// when the line has unbalanced quotes or a trailing backslash.
pub uninterp spec fn shlex_words(line: Seq<char>) -> Option<Seq<Seq<char>>>;

/// The character views of a list of strings.
pub open spec fn string_views(v: Seq<String>) -> Seq<Seq<char>> {
    v.map_values(|s: String| s@)
}

/// Calls `shlex::split`. Claims only that the result is the value named
/// `shlex_words` of the line; the POSIX word-splitting rules are not stated.
#[verifier::external_body]
fn shlex_split(line: &str) -> (r: Option<Vec<String>>)
    ensures
        r is Some <==> shlex_words(line@) is Some,
        r matches Some(v) ==> shlex_words(line@) == Some(string_views(v@)),
{
    shlex::split(line)
}

/// The argv an `Exec` line runs as, or why it cannot run.
pub open spec fn exec_words(exec_cmd: Seq<char>) -> Result<Seq<Seq<char>>, Seq<char>> {
    match shlex_words(exec_cmd) {
        None => Err("failed to parse Exec: "@ + exec_cmd),
        Some(w) => if w.len() == 0 {
            Err("empty Exec"@)
        } else {
            Ok(w)
        },
    }
}

/// Split an `Exec` line into the program and its arguments.
pub fn exec_argv(exec_cmd: &str) -> (r: Result<Vec<String>, String>)
    ensures
        match r {
            Ok(v) => exec_words(exec_cmd@) == Ok::<Seq<Seq<char>>, Seq<char>>(string_views(v@)),
            Err(e) => exec_words(exec_cmd@) == Err::<Seq<Seq<char>>, Seq<char>>(e@),
        },
{
    match shlex_split(exec_cmd) {
        None => Err(String::from_str("failed to parse Exec: ").concat(exec_cmd)),
        Some(argv) => {
            if argv.len() == 0 {
                Err(String::from_str("empty Exec"))
            } else {
                Ok(argv)
            }
        },
    }
}

/// Terminal emulators the launcher knows.
#[derive(PartialEq, Eq, Structural, Clone, Copy, Debug)]
pub enum Terminal {
    Ptyxis,
    GnomeTerminal,
}

/// What to start for an application.
pub enum LaunchPlan {
    /// Run the terminal with these arguments.
    InTerminal { terminal: Terminal, args: Vec<String> },
    /// Run `gtk-launch` with this desktop id; on failure run [`exec_argv`] of the `Exec` line.
    GtkLaunch { id: String },
    /// Run this argv directly.
    Direct { argv: Vec<String> },
}

/// The id `gtk-launch` takes: the desktop id without its `.desktop` suffix.
pub open spec fn launch_id(desktop_id: Seq<char>) -> Seq<char> {
    let sfx = ".desktop"@;
    if desktop_id.len() >= sfx.len() && desktop_id.skip(desktop_id.len() - sfx.len()) == sfx {
        desktop_id.take(desktop_id.len() - sfx.len())
    } else {
        desktop_id
    }
}

/// The desktop id without its `.desktop` suffix.
pub fn gtk_launch_id(desktop_id: &str) -> (r: String)
    ensures
        r@ == launch_id(desktop_id@),
{
    let v = chars_of(desktop_id);
    let sfx = chars_of(".desktop");
    proof {
        reveal_strlit(".desktop");
    }
    if v.len() >= 8 {
        let start = v.len() - 8;
        let mut same = true;
        let mut k: usize = 0;
        while k < 8
            invariant
                k <= 8,
                start + 8 == v.len(),
                sfx@ == ".desktop"@,
                sfx.len() == 8,
                same == forall|j: int| 0 <= j < k ==> v@[start + j] == sfx@[j],
            decreases 8 - k,
        {
            if v[start + k] != sfx[k] {
                same = false;
            }
            k += 1;
        }
        if same {
            assert(v@.skip(start as int) =~= sfx@);
            assert(v@.take(start as int) =~= v@.subrange(0, start as int));
            return string_of_range(v.as_slice(), 0, start);
        } else {
            proof {
                if v@.skip(start as int) == sfx@ {
                    let j = choose|j: int| 0 <= j < 8 && v@[start + j] != sfx@[j];
                    assert(v@.skip(start as int)[j] == v@[start + j]);
                }
            }
        }
    }
    String::from_str(desktop_id)
}

/// The launch plan's view: `(terminal, args)`, a `gtk-launch` id, or a direct argv.
pub ghost enum PlanView {
    InTerminal(Terminal, Seq<Seq<char>>),
    GtkLaunch(Seq<char>),
    Direct(Seq<Seq<char>>),
}

/// How to launch `app`, given which terminals are installed: terminal apps run in
/// `ptyxis -- bash -lc EXEC`, else `gnome-terminal -e EXEC`, else their split
/// `Exec`; other apps go through `gtk-launch`.
pub open spec fn plan_for(app: AppView, has_ptyxis: bool, has_gnome_terminal: bool) -> Result<PlanView, Seq<char>> {
    if app.terminal {
        if has_ptyxis {
            Ok(PlanView::InTerminal(Terminal::Ptyxis, seq!["--"@, "bash"@, "-lc"@, app.exec_cmd]))
        } else if has_gnome_terminal {
            Ok(PlanView::InTerminal(Terminal::GnomeTerminal, seq!["-e"@, app.exec_cmd]))
        } else {
            match exec_words(app.exec_cmd) {
                Ok(w) => Ok(PlanView::Direct(w)),
                Err(e) => Err(e),
            }
        }
    } else {
        Ok(PlanView::GtkLaunch(launch_id(app.desktop_id)))
    }
}

/// The view of a launch plan.
pub open spec fn plan_view(p: LaunchPlan) -> PlanView {
    match p {
        LaunchPlan::InTerminal { terminal, args } => PlanView::InTerminal(terminal, string_views(args@)),
        LaunchPlan::GtkLaunch { id } => PlanView::GtkLaunch(id@),
        LaunchPlan::Direct { argv } => PlanView::Direct(string_views(argv@)),
    }
}

/// Decide how to launch `app` (`has_ptyxis` / `has_gnome_terminal`: whether those
/// terminals are on `PATH`).
pub fn launch_plan(app: &AppEntry, has_ptyxis: bool, has_gnome_terminal: bool) -> (r: Result<LaunchPlan, String>)
    ensures
        match r {
            Ok(p) => plan_for(app@, has_ptyxis, has_gnome_terminal) == Ok::<PlanView, Seq<char>>(plan_view(p)),
            Err(e) => plan_for(app@, has_ptyxis, has_gnome_terminal) == Err::<PlanView, Seq<char>>(e@),
        },
{
    if app.terminal {
        if has_ptyxis {
            let mut args: Vec<String> = Vec::new();
            args.push(String::from_str("--"));
            args.push(String::from_str("bash"));
            args.push(String::from_str("-lc"));
            args.push(app.exec_cmd.clone());
            assert(string_views(args@) =~= seq!["--"@, "bash"@, "-lc"@, app.exec_cmd@]);
            return Ok(LaunchPlan::InTerminal { terminal: Terminal::Ptyxis, args });
        }
        if has_gnome_terminal {
            let mut args: Vec<String> = Vec::new();
            args.push(String::from_str("-e"));
            args.push(app.exec_cmd.clone());
            assert(string_views(args@) =~= seq!["-e"@, app.exec_cmd@]);
            return Ok(LaunchPlan::InTerminal { terminal: Terminal::GnomeTerminal, args });
        }
        return match exec_argv(app.exec_cmd.as_str()) {
            Ok(argv) => Ok(LaunchPlan::Direct { argv }),
            Err(e) => Err(e),
        };
    }
    Ok(LaunchPlan::GtkLaunch { id: gtk_launch_id(app.desktop_id.as_str()) })
}

} // verus!
