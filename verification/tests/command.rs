use diecast::command::{plugin, usage, version, Build, Builder, Clean, CommandError};
use diecast::configuration::{Configuration, Settings};

const HEADER: &str = "
Usage:
    diecast <command> [<args>...]
    diecast [options]

Options:
    -h, --help           Print this message
    -v, --version        Print version info

Possible commands include:
";

#[test]
fn usage_lists_commands_by_name() {
    let text = Builder::new().command("live", "Live preview of the site").usage();
    let expected = format!(
        "{}    build       Build the site\n    clean       Remove output directory\n    live        Live preview of the site\n",
        HEADER
    );
    assert_eq!(text, expected);
}

#[test]
fn usage_sorts_entries() {
    let entries = vec![
        (String::from("zeta"), String::from("last")),
        (String::from("alpha"), String::from("first")),
    ];
    let text = usage(&entries);
    assert_eq!(text, format!("{}    alpha       first\n    zeta        last\n", HEADER));
}

#[test]
fn select_picks_commands() {
    let builder = Builder::new();

    assert_eq!(builder.select("clean").ok(), Some(1));
    assert_eq!(builder.select("build").ok(), Some(0));
    assert!(matches!(builder.select("help"), Err(CommandError::Help { .. })));
    assert!(matches!(builder.select(""), Err(CommandError::Help { .. })));
    match builder.select("deploy") {
        Err(CommandError::Unknown { name, usage }) => {
            assert_eq!(name, "deploy");
            assert!(usage.starts_with(HEADER));
        },
        _ => panic!("there is no such command"),
    }
}

#[test]
fn commands_replace_descriptions() {
    let builder = Builder::new().command("build", "Build it all");
    assert!(builder.usage().contains("    build       Build it all\n"));
    assert!(!builder.usage().contains("Build the site"));
}

#[test]
fn long_names_do_not_fit() {
    assert!(Builder::new().names_fit());
    assert!(!Builder::new().command("averylongname", "x").names_fit());
}

#[test]
fn version_text() {
    assert_eq!(version(None, "0", "1", "0", None), "diecast 0.1.0");
    assert_eq!(version(None, "1", "2", "3", Some("-beta")), "diecast 1.2.3-beta");
    assert_eq!(version(Some("9.9.9"), "0", "1", "0", None), "diecast 9.9.9");
}

#[test]
fn plugin_describes_live_preview() {
    let p = plugin();
    assert_eq!(p.name, "live");
    assert_eq!(p.description, "Live preview of the site");
}

#[test]
fn commands_configure_the_build() {
    let configuration = Build.configure(Configuration::new().thread_count(4), Some(2), true);
    assert_eq!(configuration.threads, 2);
    assert!(configuration.is_verbose);

    let kept = Build.configure(Configuration::new().thread_count(4), None, false);
    assert_eq!(kept.threads, 4);
    assert!(!kept.is_verbose);

    let cleaned = Clean.configure(Configuration::new(), true);
    assert!(cleaned.ignore_hidden);
    assert_eq!(Clean.description(), "Remove output directory");
    assert_eq!(Build.description(), "Build the site");
}

#[test]
fn settings_give_the_configuration() {
    let settings = Settings {
        input: Some(String::from("src")),
        output: None,
        ignore: Some(String::from(r"^\.")),
    };
    let configuration = Configuration::from_settings(&settings).ok().unwrap();
    assert_eq!(configuration.input, "src");
    assert_eq!(configuration.output, "output");
    assert!(configuration.ignore.as_ref().unwrap().matches(".hidden"));
    assert!(!configuration.ignore.as_ref().unwrap().matches("shown"));

    let defaults = Configuration::new();
    assert_eq!(defaults.input, "input");
    assert_eq!(defaults.output, "output");
    assert!(defaults.ignore.is_none());
    assert!(defaults.threads >= 1);
}

#[test]
fn invalid_ignore_expression_is_refused() {
    let settings = Settings { input: None, output: None, ignore: Some(String::from("(")) };
    let error = Configuration::from_settings(&settings).err().unwrap();
    assert_eq!(error.source, "(");
}

#[test]
fn configuration_builders() {
    let c = Configuration::new().input("a").output("b").thread_count(3).ignore_hidden(true).preview(true);
    assert_eq!(c.input, "a");
    assert_eq!(c.output, "b");
    assert_eq!(c.threads, 3);
    assert!(c.ignore_hidden);
    assert!(c.is_preview);
}
