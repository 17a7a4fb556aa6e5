use evtsrc_catalog::catalog::EventSources;
use evtsrc_catalog::expand::{expand_env_vars, Environment};
use evtsrc_catalog::messages::{normalize, I18nMessages, Message};
use evtsrc_catalog::source::{split_module_paths, sub_source_name, EventSource, ModuleOutcome};

fn env_of(pairs: &[(&str, &str)]) -> Environment {
    let mut env = Environment::new();
    for (k, v) in pairs {
        env.add(k.to_string(), v.to_string());
    }
    env
}

fn msg(id: u32, lang: u32, text: &str) -> Message {
    Message { msg_id: id, lang_id: lang, text: text.to_string() }
}

fn source_with_file(name: &str, file: Option<&str>) -> EventSource {
    EventSource::from(name.to_string(), None, None, file.map(|f| f.to_string()), None, None)
}

fn bucket(source: &EventSource, lang: u32) -> Vec<(u32, String)> {
    source.messages.get(&lang).map(|b| b.messages.clone()).unwrap_or_default()
}

fn pairs(v: &[(u32, &str)]) -> Vec<(u32, String)> {
    v.iter().map(|(i, t)| (*i, t.to_string())).collect()
}

#[test]
fn expand_leaves_text_without_percent() {
    let env = env_of(&[("SystemRoot", "C:\\Windows")]);
    for s in ["", "C:\\Windows\\a.dll", "SystemRoot", "a;b;c"] {
        assert_eq!(expand_env_vars(s, &env).ok().unwrap(), s);
    }
}

#[test]
fn expand_double_percent_is_percent() {
    let env = Environment::new();
    assert_eq!(expand_env_vars("%%", &env).ok().unwrap(), "%");
    assert_eq!(expand_env_vars("100%%", &env).ok().unwrap(), "100%");
}

#[test]
fn expand_defined_variable() {
    let env = env_of(&[("FOO", "bar")]);
    assert_eq!(expand_env_vars("%FOO%", &env).ok().unwrap(), "bar");
}

#[test]
fn expand_undefined_variable_fails() {
    let env = env_of(&[("BAR", "x")]);
    let e = expand_env_vars("%FOO%", &env).err().unwrap();
    assert_eq!(e.name, "FOO");
}

#[test]
fn expand_first_undefined_variable_is_reported() {
    let env = env_of(&[("B", "x")]);
    let e = expand_env_vars("%A%%B%%C%", &env).err().unwrap();
    assert_eq!(e.name, "A");
    let e = expand_env_vars("%B%\\%C%", &env).err().unwrap();
    assert_eq!(e.name, "C");
}

#[test]
fn expand_mixed_placeholders() {
    let env = env_of(&[("SystemRoot", "C:\\Windows"), ("n_1", "7")]);
    assert_eq!(
        expand_env_vars("%SystemRoot%\\System32\\%n_1%.dll", &env).ok().unwrap(),
        "C:\\Windows\\System32\\7.dll"
    );
    // a lone percent and a percent before a non-word character stay literal
    assert_eq!(expand_env_vars("a%b", &env).ok().unwrap(), "a%b");
    assert_eq!(expand_env_vars("%a-b%", &env).ok().unwrap(), "%a-b%");
    // scanning resumes after a placeholder
    assert_eq!(expand_env_vars("%n_1%2%", &env).ok().unwrap(), "72%");
}

#[test]
fn expand_first_binding_wins() {
    let env = env_of(&[("X", "one"), ("X", "two")]);
    assert_eq!(expand_env_vars("%X%", &env).ok().unwrap(), "one");
}

#[test]
fn normalize_strips_trailing_padding() {
    assert_eq!(normalize("abc\r\n\0"), "abc");
    assert_eq!(normalize("a\nb\r\n"), "a\nb");
    assert_eq!(normalize(" x \n"), " x ");
    assert_eq!(normalize("\n\r\0"), "");
    assert_eq!(normalize(""), "");
    assert_eq!(normalize("\0abc"), "\0abc");
}

#[test]
fn normalize_is_idempotent() {
    for s in ["abc\r\n\0", "x\n\n", "plain", "", "\r"] {
        let once = normalize(s);
        assert_eq!(normalize(&once), once);
    }
}

#[test]
fn language_bucket_appends_in_order() {
    let mut b = I18nMessages::new(1033);
    assert!(b.messages.is_empty());
    b.add_message(msg(5, 1033, "first\r\n"));
    b.add_message(msg(5, 1033, "again"));
    b.add_message(msg(2, 1033, "third\0"));
    assert_eq!(b.lang_id, 1033);
    assert_eq!(b.messages, pairs(&[(5, "first"), (5, "again"), (2, "third")]));
}

#[test]
fn messages_grouped_by_language() {
    let mut s = source_with_file("App", None);
    s.add_message(msg(1, 1033, "a\n"));
    s.add_message(msg(2, 1033, "b"));
    s.add_message(msg(1, 1036, "c"));
    assert_eq!(s.messages.len(), 2);
    assert_eq!(bucket(&s, 1033), pairs(&[(1, "a"), (2, "b")]));
    assert_eq!(bucket(&s, 1036), pairs(&[(1, "c")]));
    assert_eq!(s.messages.get(&1036).unwrap().lang_id, 1036);
}

#[test]
fn from_keeps_attributes() {
    let s = EventSource::from(
        "Sys".to_string(),
        Some(3),
        Some("cat.dll".to_string()),
        Some("evt.dll".to_string()),
        None,
        Some(7),
    );
    assert_eq!(s.name, "Sys");
    assert_eq!(s.category_count, Some(3));
    assert_eq!(s.category_message_file.as_deref(), Some("cat.dll"));
    assert_eq!(s.event_message_file.as_deref(), Some("evt.dll"));
    assert_eq!(s.parameter_message_file, None);
    assert_eq!(s.types_supported, Some(7));
    assert!(s.messages.is_empty());
}

#[test]
fn split_paths_keeps_empty_pieces() {
    assert_eq!(split_module_paths("a.dll;b.dll;"), vec!["a.dll", "b.dll", ""]);
    assert_eq!(split_module_paths(""), vec![""]);
    assert_eq!(split_module_paths("one"), vec!["one"]);
}

#[test]
fn nested_source_name() {
    assert_eq!(sub_source_name("AppB", "Sub1"), "AppB/Sub1");
}

#[test]
fn module_paths_expand_and_split() {
    let env = env_of(&[("SystemRoot", "C:\\Windows")]);
    let s = source_with_file("App", Some("%SystemRoot%\\a.dll;b.dll"));
    assert_eq!(s.module_paths(&env).ok().unwrap(), vec!["C:\\Windows\\a.dll", "b.dll"]);
    let none = source_with_file("App", None);
    assert!(none.module_paths(&env).ok().unwrap().is_empty());
    let bad = source_with_file("App", Some("%Missing%\\a.dll"));
    assert_eq!(bad.module_paths(&env).err().unwrap().name, "Missing");
}

#[test]
fn unopened_module_is_skipped() {
    let env = Environment::new();
    let mut s = source_with_file("App", Some("missing.dll;present.dll"));
    let paths = s.module_paths(&env).ok().unwrap();
    assert_eq!(paths, vec!["missing.dll", "present.dll"]);
    let outcomes = vec![
        ModuleOutcome::OpenFailed,
        ModuleOutcome::Read(vec![msg(1, 1033, "hello\r\n"), msg(2, 1033, "world")]),
    ];
    assert!(s.ingest_modules(&outcomes).is_ok());
    assert_eq!(bucket(&s, 1033), pairs(&[(1, "hello"), (2, "world")]));
}

#[test]
fn read_failure_is_fatal() {
    let mut s = source_with_file("App", Some("a.dll;b.dll;c.dll"));
    let outcomes = vec![
        ModuleOutcome::OpenFailed,
        ModuleOutcome::ReadFailed,
        ModuleOutcome::Read(vec![msg(1, 1033, "x")]),
    ];
    let e = s.ingest_modules(&outcomes).err().unwrap();
    assert_eq!(e.module, 1);
}

#[test]
fn ingest_concatenates_modules_in_order() {
    let mut s = source_with_file("App", Some("a.dll;b.dll"));
    let outcomes = vec![
        ModuleOutcome::Read(vec![msg(1, 1033, "a\n"), msg(2, 1033, "b"), msg(1, 1036, "c")]),
        ModuleOutcome::Read(vec![msg(9, 1033, "z\0")]),
    ];
    assert!(s.ingest_modules(&outcomes).is_ok());
    assert_eq!(bucket(&s, 1033), pairs(&[(1, "a"), (2, "b"), (9, "z")]));
    assert_eq!(bucket(&s, 1036), pairs(&[(1, "c")]));
}

#[test]
fn first_source_for_a_path_is_kept() {
    let env = env_of(&[("SystemRoot", "C:\\Windows")]);
    let mut catalog = EventSources::new();
    let mut a = EventSource::from(
        "A".to_string(),
        Some(1),
        None,
        Some("%SystemRoot%\\x.dll".to_string()),
        None,
        Some(4),
    );
    a.add_message(msg(1, 1033, "from a"));
    let mut b = EventSource::from(
        "B".to_string(),
        Some(2),
        None,
        Some("C:\\Windows\\x.dll".to_string()),
        None,
        Some(8),
    );
    b.add_message(msg(1, 1033, "from b"));
    assert!(catalog.add_source(a, &env).is_ok());
    assert!(catalog.add_source(b, &env).is_ok());
    let p = "C:\\Windows\\x.dll".to_string();
    assert_eq!(catalog.filenames, vec![("A".to_string(), p.clone()), ("B".to_string(), p.clone())]);
    assert_eq!(catalog.sources.len(), 1);
    assert_eq!(catalog.sources[0].0, p);
    let kept = &catalog.sources[0].1;
    assert_eq!(kept.name, "A");
    assert_eq!(kept.category_count, Some(1));
    assert_eq!(kept.types_supported, Some(4));
    assert_eq!(bucket(kept, 1033), pairs(&[(1, "from a")]));
    assert!(catalog.has_filename("C:\\Windows\\x.dll"));
    assert!(!catalog.has_filename("%SystemRoot%\\x.dll"));
}

#[test]
fn source_without_message_file_is_not_recorded() {
    let env = Environment::new();
    let mut catalog = EventSources::new();
    assert!(catalog.add_source(source_with_file("Bare", None), &env).is_ok());
    assert!(catalog.filenames.is_empty());
    assert!(catalog.sources.is_empty());
}

#[test]
fn undefined_variable_aborts_add() {
    let env = Environment::new();
    let mut catalog = EventSources::new();
    let e = catalog.add_source(source_with_file("S", Some("%Nope%\\a.dll")), &env).err().unwrap();
    assert_eq!(e.name, "Nope");
    assert!(catalog.filenames.is_empty());
    assert!(catalog.sources.is_empty());
}

#[test]
fn same_name_again_updates_its_path() {
    let env = Environment::new();
    let mut catalog = EventSources::new();
    assert!(catalog.add_source(source_with_file("S", Some("one.dll")), &env).is_ok());
    assert!(catalog.add_source(source_with_file("S", Some("two.dll")), &env).is_ok());
    assert_eq!(catalog.filenames, vec![("S".to_string(), "two.dll".to_string())]);
    assert_eq!(catalog.sources.len(), 2);
    assert_eq!(catalog.sources[1].0, "two.dll");
}

#[test]
fn nested_group_sharing_a_module() {
    let env = env_of(&[("SystemRoot", "C:\\Windows")]);
    let mut catalog = EventSources::new();

    let mut app_a = source_with_file("AppA", Some("%SystemRoot%\\A.dll"));
    let paths = app_a.module_paths(&env).ok().unwrap();
    let outcomes: Vec<ModuleOutcome> = paths
        .iter()
        .map(|_| ModuleOutcome::Read(vec![msg(100, 1033, "Started\r\n")]))
        .collect();
    assert!(app_a.ingest_modules(&outcomes).is_ok());
    assert!(catalog.add_source(app_a, &env).is_ok());

    let app_b = source_with_file("AppB", None);
    assert!(catalog.add_source(app_b, &env).is_ok());
    let mut sub = source_with_file(&sub_source_name("AppB", "Sub1"), Some("%SystemRoot%\\A.dll"));
    let outcomes = vec![ModuleOutcome::Read(vec![msg(100, 1033, "Started\r\n")])];
    assert!(sub.ingest_modules(&outcomes).is_ok());
    assert!(catalog.add_source(sub, &env).is_ok());

    let p = "C:\\Windows\\A.dll".to_string();
    assert_eq!(
        catalog.filenames,
        vec![("AppA".to_string(), p.clone()), ("AppB/Sub1".to_string(), p.clone())]
    );
    assert_eq!(catalog.sources.len(), 1);
    assert_eq!(catalog.sources[0].0, p);
    assert_eq!(catalog.sources[0].1.name, "AppA");
    assert_eq!(bucket(&catalog.sources[0].1, 1033), pairs(&[(100, "Started")]));
}
