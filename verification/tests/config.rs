use bench_uring::config::{
    Config, EnvConfig, EnvSetting, DEFAULT_ADDR, ENV_DURATION, ENV_SIZE, ENV_SOCKET_LEN,
};
use bench_uring::stat::{read_step, Elapsed, Message, ReadStep, Stat};

#[test]
fn defaults_when_nothing_is_set() {
    let c = Config::from_env(None, None, None, None, None);
    assert_eq!(c.addr, DEFAULT_ADDR);
    assert_eq!(c.addr, "127.0.0.1:2345");
    assert_eq!(c.size, 16 * 1024);
    assert_eq!(c.socket_len, 100);
    assert_eq!(c.duration, 4);
    assert_eq!(c.interval, 2);
}

#[test]
fn set_variables_override() {
    let c = Config::from_env(Some("0.0.0.0:1"), Some("1024"), Some("+7"), Some("10"), Some("1"));
    assert_eq!(c.addr, "0.0.0.0:1");
    assert_eq!((c.size, c.socket_len, c.duration, c.interval), (1024, 7, 10, 1));
}

fn lookup(vars: &[bench_uring::config::EnvVar], name: &str) -> Option<String> {
    vars.iter()
        .rev()
        .find(|v| v.name == name)
        .map(|v| v.value.iter().collect::<String>())
}

#[test]
fn overrides_reach_the_started_process() {
    for setting in [
        EnvSetting::Unchanged,
        EnvSetting::Duration(4),
        EnvSetting::SocketLen(200),
        EnvSetting::Size(1024 * 1024),
    ] {
        let mut env = EnvConfig::new();
        setting.apply(&mut env);
        let recorded = env.finish();
        let vars = env.vars();
        let size = lookup(&vars, ENV_SIZE);
        let socket_len = lookup(&vars, ENV_SOCKET_LEN);
        let duration = lookup(&vars, ENV_DURATION);
        let read = Config::from_env(
            None,
            size.as_deref(),
            socket_len.as_deref(),
            duration.as_deref(),
            None,
        );
        assert_eq!(read.size, recorded.size);
        assert_eq!(read.socket_len, recorded.socket_len);
        assert_eq!(read.duration, recorded.duration);
        assert_eq!(read.interval, recorded.interval);
        assert_eq!(read.addr, recorded.addr);
    }
}

#[test]
fn each_setting_changes_one_field() {
    let mut env = EnvConfig::new();
    EnvSetting::Size(1048576).apply(&mut env);
    let c = env.finish();
    assert_eq!((c.size, c.socket_len, c.duration), (1048576, 100, 4));
    assert_eq!(env.vars().len(), 1);
    assert_eq!(lookup(&env.vars(), "SIZE").as_deref(), Some("1048576"));
    let mut env = EnvConfig::new();
    EnvSetting::SocketLen(200).apply(&mut env);
    EnvSetting::Duration(9).apply(&mut env);
    let c = env.finish();
    assert_eq!((c.size, c.socket_len, c.duration), (16384, 200, 9));
    assert_eq!(lookup(&env.vars(), "DURATION").as_deref(), Some("9"));
    assert!(EnvConfig::new().vars().is_empty());
}

#[test]
fn stat_ticks() {
    let mut s = Stat::new();
    assert_eq!(s.tick(10, 2), (10, 5));
    assert_eq!(s.tick(15, 2), (5, 2));
    assert_eq!(s.last, 15);
    assert_eq!(s.average(Elapsed { secs: 4, nanos: 0 }), 3);
    assert!(Stat::running(4, Elapsed { secs: 3, nanos: 999_999_999 }));
    assert!(!Stat::running(4, Elapsed { secs: 4, nanos: 0 }));
}

#[test]
fn read_steps() {
    assert_eq!(read_step(Some(16384)), ReadStep::Continue);
    assert_eq!(read_step(Some(0)), ReadStep::Close);
    assert_eq!(read_step(None), ReadStep::Fail);
    assert_eq!(Message::StatDone, Message::StatDone);
}

#[test]
fn overrides_set_no_other_variable() {
    let mut env = EnvConfig::new();
    EnvSetting::Size(1).apply(&mut env);
    EnvSetting::SocketLen(2).apply(&mut env);
    EnvSetting::Duration(3).apply(&mut env);
    EnvSetting::Size(4).apply(&mut env);
    let vars = env.vars();
    let names: Vec<&str> = vars.iter().map(|v| v.name).collect();
    assert_eq!(names, vec![ENV_SIZE, ENV_SOCKET_LEN, ENV_DURATION]);
    assert_eq!(lookup(&vars, "SIZE").as_deref(), Some("4"));
}
