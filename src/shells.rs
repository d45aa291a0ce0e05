use vstd::prelude::*;

verus! {

/// The statement that exports `name` with value `val`.
pub open spec fn export_line(name: Seq<char>, val: Seq<char>) -> Seq<char> {
    "export "@ + name + "="@ + val + "\n"@
}

/// A shell that the hooks support: its initialisation snippet and its form
/// of an export statement.
pub trait Shell {
    fn driven_init(&self) -> &'static str;

    fn export_var(&self, name: &str, val: &str) -> (r: String)
        ensures
            r@ == export_line(name@, val@),
    ;
}

fn export_statement(name: &str, val: &str) -> (r: String)
    ensures
        r@ == export_line(name@, val@),
{
    let mut r = String::from_str("export ");
    r.append(name);
    r.append("=");
    r.append(val);
    r.append("\n");
    r
}

pub struct Bash;

impl Shell for Bash {
    fn driven_init(&self) -> &'static str {
        r#"
__driven_add_dir() {
    if [[ "${__DRIVEN_LAST_PWD:-}" != "${PWD}" ]]; then
        source <(driven visit --shell zsh "${PWD}")
    fi
    __DRIVEN_LAST_PWD="${PWD}"
}
"#
    }

    fn export_var(&self, name: &str, val: &str) -> (r: String) {
        export_statement(name, val)
    }
}

pub struct Zsh;

impl Shell for Zsh {
    fn driven_init(&self) -> &'static str {
        r#"
__driven_add_dir() {
    source <(driven visit --shell zsh "${PWD}")
}

autoload -Uz add-zsh-hook
add-zsh-hook chpwd __driven_add_dir
"#
    }

    fn export_var(&self, name: &str, val: &str) -> (r: String) {
        export_statement(name, val)
    }
}

/// Fish has an initialisation snippet but no export support yet.
pub struct Fish;

impl Fish {
    pub fn driven_init(&self) -> &'static str {
        r#"
function __driven_preexec --on-variable PWD
    status --is-command-substitution; and return
    driven visit (pwd)
end
"#
    }
}

/// The shells that `from_name` can hand out.
#[derive(Debug, PartialEq, Eq, Clone, Copy)]
pub enum SupportedShell {
    Bash,
    Zsh,
}

impl Shell for SupportedShell {
    fn driven_init(&self) -> &'static str {
        match self {
            SupportedShell::Bash => Bash.driven_init(),
            SupportedShell::Zsh => Zsh.driven_init(),
        }
    }

    fn export_var(&self, name: &str, val: &str) -> (r: String) {
        match self {
            SupportedShell::Bash => Bash.export_var(name, val),
            SupportedShell::Zsh => Zsh.export_var(name, val),
        }
    }
}

/// The shell named `name`: `bash` or `zsh`.
pub fn from_name(name: &str) -> (r: Option<SupportedShell>)
    ensures
        r == if name@ == "bash"@ {
            Some(SupportedShell::Bash)
        } else if name@ == "zsh"@ {
            Some(SupportedShell::Zsh)
        } else {
            None::<SupportedShell>
        },
{
    let n = String::from_str(name);
    if n == String::from_str("bash") {
        Some(SupportedShell::Bash)
    } else if n == String::from_str("zsh") {
        Some(SupportedShell::Zsh)
    } else {
        None
    }
}

} // verus!
