use unlog::locate::{expand, history_path_plan, PathStep};

fn plan(explicit: Option<&str>, histfile: Option<&str>, home: Option<&str>) -> Vec<(char, String)> {
    history_path_plan(explicit, histfile, home)
        .into_iter()
        .map(|step| match step {
            PathStep::Use(path) => ('u', path),
            PathStep::UseIfFile(path) => ('f', path),
            PathStep::Fail(message) => ('x', message),
        })
        .collect()
}

#[test]
fn an_explicit_path_wins() {
    assert_eq!(plan(Some("  ~/h  "), Some("/other"), Some("/home/me")), [('u', "/home/me/h".to_string())]);
    assert_eq!(plan(Some("/abs"), None, None), [('u', "/abs".to_string())]);
}

#[test]
fn histfile_then_the_usual_files() {
    assert_eq!(
        plan(Some("   "), Some(" ~/.hist "), Some("/home/me")),
        [
            ('f', "/home/me/.hist".to_string()),
            ('f', "/home/me/.zsh_history".to_string()),
            ('f', "/home/me/.bash_history".to_string()),
            ('x', "No history file found. Set HISTFILE.".to_string()),
        ]
    );
    assert_eq!(
        plan(None, Some(""), Some("/root/")),
        [
            ('f', "/root/.zsh_history".to_string()),
            ('f', "/root/.bash_history".to_string()),
            ('x', "No history file found. Set HISTFILE.".to_string()),
        ]
    );
}

#[test]
fn without_home_the_search_fails() {
    assert_eq!(
        plan(None, Some("~/h"), None),
        [('f', "~/h".to_string()), ('x', "HOME is not set".to_string())]
    );
    assert_eq!(plan(None, None, None), [('x', "HOME is not set".to_string())]);
}

#[test]
fn tilde_expansion() {
    assert_eq!(expand("~/a/b", Some("/h")), "/h/a/b");
    assert_eq!(expand("~user/a", Some("/h")), "~user/a");
    assert_eq!(expand("~/a", None), "~/a");
    assert_eq!(expand("/x/~/a", Some("/h")), "/x/~/a");
}
