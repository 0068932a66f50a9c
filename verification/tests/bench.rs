use bench_uring::bench::{cargo_args, example_name, Bench, Examples};
use bench_uring::config::{gen_env_settings, EnvSetting};

fn names(v: &[&str]) -> Vec<String> {
    v.iter().map(|s| s.to_string()).collect()
}

fn sample() -> Examples {
    Examples::new(names(&[
        "server_tokio_st",
        "client_tokio_mt",
        "server_monoio_mt",
        "client_tokio_st",
        "other",
        "server_async_uring_tokio_st",
    ]))
}

#[test]
fn examples_are_sorted_and_split_by_prefix() {
    let e = sample();
    assert_eq!(
        e.all,
        names(&[
            "client_tokio_mt",
            "client_tokio_st",
            "other",
            "server_async_uring_tokio_st",
            "server_monoio_mt",
            "server_tokio_st",
        ])
    );
    assert_eq!(e.clients, names(&["client_tokio_mt", "client_tokio_st"]));
    assert_eq!(
        e.servers,
        names(&["server_async_uring_tokio_st", "server_monoio_mt", "server_tokio_st"])
    );
}

#[test]
fn examples_sort_like_std() {
    let input = names(&["b", "a", "ab", "", "B", "é", "e", "a", "zz", "z"]);
    let mut expected = input.clone();
    expected.sort_unstable();
    assert_eq!(Examples::new(input).all, expected);
}

#[test]
fn examples_of_nothing() {
    let e = Examples::new(Vec::new());
    assert!(e.all.is_empty() && e.servers.is_empty() && e.clients.is_empty());
    assert!(e.combinations().is_empty());
    assert!(e.bench_plan().is_empty());
}

#[test]
fn build_commands() {
    let e = sample();
    let cmds = e.build();
    assert_eq!(cmds.len(), 6);
    assert_eq!(cmds[0], names(&["build", "--example", "client_tokio_mt"]));
    assert_eq!(cmds[5], names(&["build", "--example", "server_tokio_st"]));
    assert_eq!(cargo_args("run", "x"), names(&["run", "--example", "x"]));
}

#[test]
fn combinations_pair_every_server_with_every_client() {
    let e = sample();
    let c = e.combinations();
    let expected: Vec<(String, String)> = [
        ("server_async_uring_tokio_st", "client_tokio_mt"),
        ("server_async_uring_tokio_st", "client_tokio_st"),
        ("server_monoio_mt", "client_tokio_mt"),
        ("server_monoio_mt", "client_tokio_st"),
        ("server_tokio_st", "client_tokio_mt"),
        ("server_tokio_st", "client_tokio_st"),
    ]
    .iter()
    .map(|(a, b)| (a.to_string(), b.to_string()))
    .collect();
    assert_eq!(c, expected);
}

#[test]
fn env_settings() {
    assert_eq!(
        gen_env_settings(),
        vec![
            EnvSetting::Unchanged,
            EnvSetting::Duration(4),
            EnvSetting::SocketLen(200),
            EnvSetting::Size(1024 * 1024),
        ]
    );
}

fn key(b: &Bench) -> (String, String, String) {
    (b.server.clone(), b.client.clone(), format!("{:?}", b.env))
}

#[test]
fn ordered_plan_runs_each_pair_under_each_setting() {
    let e = sample();
    let plan = e.ordered_bench_plan();
    assert_eq!(plan.len(), 3 * 2 * 4);
    assert_eq!(plan[0].server, "server_async_uring_tokio_st");
    assert_eq!(plan[0].client, "client_tokio_mt");
    assert_eq!(plan[0].env, EnvSetting::Unchanged);
    assert_eq!(plan[3].env, EnvSetting::Size(1048576));
    assert_eq!(plan[4].client, "client_tokio_st");
    assert_eq!(plan[23].server, "server_tokio_st");
    assert_eq!(plan[23].client, "client_tokio_st");
    assert_eq!(plan[23].env, EnvSetting::Size(1048576));
}

#[test]
fn shuffled_plan_is_a_permutation_in_a_new_order() {
    let e = sample();
    let ordered: Vec<_> = e.ordered_bench_plan().iter().map(key).collect();
    let mut sorted_ordered = ordered.clone();
    sorted_ordered.sort();
    let mut saw_new_order = false;
    for _ in 0..5 {
        let plan: Vec<_> = e.bench_plan().iter().map(key).collect();
        if plan != ordered {
            saw_new_order = true;
        }
        let mut s = plan.clone();
        s.sort();
        assert_eq!(s, sorted_ordered);
    }
    assert!(saw_new_order);
}

#[test]
fn run_commands_of_a_bench() {
    let b = Bench {
        server: "server_tokio_st".to_string(),
        client: "client_tokio_mt".to_string(),
        env: EnvSetting::Unchanged,
    };
    assert_eq!(b.server_args(), names(&["run", "--example", "server_tokio_st"]));
    assert_eq!(b.client_args(), names(&["run", "--example", "client_tokio_mt"]));
}

#[test]
fn example_names_of_directory_entries() {
    assert_eq!(example_name("server_tokio_st.rs", true), Some("server_tokio_st".to_string()));
    assert_eq!(example_name("server_tokio_st.rs", false), None);
    assert_eq!(example_name("notes.txt", true), None);
    assert_eq!(example_name(".rs", true), None);
    assert_eq!(example_name("rs", true), None);
    assert_eq!(example_name("a.b.rs", true), Some("a.b".to_string()));
    assert_eq!(example_name("a.rs.bak", true), None);
    assert_eq!(example_name("ü.rs", true), Some("ü".to_string()));
}

#[test]
fn example_names_agree_with_path() {
    for name in [
        "a.rs", ".rs", "..rs", "...rs", "rs", "a.", "a..rs", ".a.rs", "a.RS", "a.rs.", "a.rsx", "x.rs",
        "é.rs", "",
    ] {
        let p = std::path::Path::new(name);
        let expected = if p.extension().map(|e| e == "rs").unwrap_or(false) {
            p.file_stem().and_then(|s| s.to_str()).map(|s| s.to_owned())
        } else {
            None
        };
        assert_eq!(example_name(name, true), expected, "{name:?}");
    }
}
