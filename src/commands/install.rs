use vstd::prelude::*;

verus! {

pub const SCRIPT_HEAD: &'static str = "#!/bin/sh\n# git-shadow managed hook\ngit-shadow hook ";

pub const SCRIPT_MIDDLE: &'static str = "\nSHADOW_EXIT=$?\nif [ $SHADOW_EXIT -ne 0 ]; then\n  exit $SHADOW_EXIT\nfi\n\n# run the hook that was installed before, if any\nif [ -x .git/hooks/";

pub const SCRIPT_CHAIN: &'static str = ".pre-shadow ]; then\n  .git/hooks/";

pub const SCRIPT_TAIL: &'static str = ".pre-shadow \"$@\"\nfi\n";

/// The hook script for `hook_name`: it runs `git-shadow hook <name>`, stops on
/// its failure, then runs the hook saved as `<name>.pre-shadow`, if any.
pub open spec fn hook_script(hook_name: Seq<char>) -> Seq<char> {
    SCRIPT_HEAD@ + hook_name + SCRIPT_MIDDLE@ + hook_name + SCRIPT_CHAIN@ + hook_name
        + SCRIPT_TAIL@
}

pub fn generate_hook_script(hook_name: &str) -> (r: String)
    ensures
        r@ == hook_script(hook_name@),
{
    let mut r = String::from_str(SCRIPT_HEAD);
    r.append(hook_name);
    r.append(SCRIPT_MIDDLE);
    r.append(hook_name);
    r.append(SCRIPT_CHAIN);
    r.append(hook_name);
    r.append(SCRIPT_TAIL);
    r
}

/// Whether a hook file's text is one that this tool installed.
pub open spec fn is_our_hook(content: Seq<char>) -> bool {
    crate::text::occurs(content, MARKER@)
}

pub const MARKER: &'static str = "git-shadow hook";

/// Whether `content` holds the marker of this tool's hooks; an installed hook
/// that holds it is left as it is.
pub fn has_marker(content: &str) -> (r: bool)
    ensures
        r == is_our_hook(content@),
{
    crate::text::contains_text(content, MARKER)
}

} // verus!
