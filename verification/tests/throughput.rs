use bench_uring::bench::Bench;
use bench_uring::config::{Config, EnvSetting};
use bench_uring::stat::{Elapsed, Stat};
use bench_uring::throughput::{parse_output, rank_throughputs, NoThroughput, Throughput};

fn config() -> Config {
    Config::defaults()
}

#[test]
fn parse_output_reads_the_summary_line() {
    let t = parse_output(
        "Avg: 53807 (538073 / 10s)\n",
        "server_tokio_st",
        "client_tokio_mt",
        &config(),
    )
    .unwrap();
    assert_eq!(t.conn, 53807);
    assert_eq!(t.secs, 10);
    assert_eq!(t.mbps, 53807 * (16384 / 1024) / 1024);
    assert_eq!(t.mbps, 840);
    assert_eq!(t.server, "server_tokio_st");
    assert_eq!(t.client, "client_tokio_mt");
    assert!(t.server_st);
    assert!(!t.client_st);
    assert_eq!(t.size, 16384);
    assert_eq!(t.socket_len, 100);
    assert_eq!(t.duration, 4);
    assert_eq!(t.interval, 2);
}

#[test]
fn parse_output_takes_the_last_summary_line() {
    let out = "Listening\nAvg: 1 (2 / 3s)\nnoise\nAvg: 40 (160 / 4s) trailing\n";
    let t = parse_output(out, "s", "c", &config()).unwrap();
    assert_eq!((t.conn, t.secs), (40, 4));
}

#[test]
fn parse_output_rejects_malformed_lines() {
    let c = config();
    for out in [
        "",
        "nothing here",
        "Avg: (1 / 2s)",
        "Avg: 1 (2 / 3ms)",
        "Avg: 1 (2 / 500ms)",
        "Avg: 1 (/ 3s)",
        "Avg: 1 (2 / s)",
        "Avg:  1 (2 / 3s)",
        "Avg: 1 (2 / 3s)\nAvg: broken",
        "Avg: 1 (2 / 4294967296s)",
        "Avg: 99999999999999999999999 (2 / 3s)",
    ] {
        assert!(parse_output(out, "s", "c", &c).is_none(), "{out:?}");
    }
}

#[test]
fn parse_output_reads_digits_as_the_pattern_does() {
    // `\d` matches any Unicode decimal digit; the captured numbers must
    // still parse as ASCII.
    let t = parse_output("Avg: 5 (٣٤ / 4s)", "s", "c", &config()).unwrap();
    assert_eq!((t.conn, t.secs), (5, 4));
    assert!(parse_output("Avg: ٣ (1 / 4s)", "s", "c", &config()).is_none());
    assert!(parse_output("Avg: 3 (1 / ٤s)", "s", "c", &config()).is_none());
    assert!(parse_output("Avg: 3 (1x / 4s)", "s", "c", &config()).is_none());
}

#[test]
fn parse_output_truncates_conn_to_u32() {
    let t = parse_output("Avg: 4294967297 (1 / 1s)", "a", "b", &config()).unwrap();
    assert_eq!(t.conn, 1);
}

#[test]
fn server_summary_reads_back() {
    let mut stat = Stat::new();
    stat.tick(1000, 2);
    stat.tick(538073, 2);
    let line: String = stat.summary(Elapsed { secs: 10, nanos: 2_000_000 }).into_iter().collect();
    assert_eq!(line, "Avg: 53807 (538073 / 10s)");
    let out = format!("Req/sec: 1\n{line}\n");
    let t = parse_output(&out, "server_tokio_st", "client_tokio_st", &config()).unwrap();
    assert_eq!((t.conn, t.secs), (53807, 10));
}

#[test]
fn summary_rounds_like_duration_debug() {
    let mut stat = Stat::new();
    stat.tick(100, 1);
    for (secs, nanos) in [
        (4u64, 0u32),
        (4, 499_999_999),
        (4, 500_000_000),
        (5, 500_000_000),
        (4, 500_000_001),
        (9, 999_999_999),
    ] {
        let line: String = stat.summary(Elapsed { secs, nanos }).into_iter().collect();
        let d = std::time::Duration::new(secs, nanos);
        assert_eq!(line, format!("Avg: {} (100 / {:.0?})", 100 / secs, d));
    }
}

#[test]
fn record_pushes_or_refuses() {
    let b = Bench {
        server: "server_monoio_mt".to_string(),
        client: "client_tokio_st".to_string(),
        env: EnvSetting::Unchanged,
    };
    let mut v = Vec::new();
    assert_eq!(b.record("Avg: 5 (10 / 2s)", &config(), &mut v), Ok(()));
    assert_eq!(v.len(), 1);
    assert_eq!(v[0].conn, 5);
    assert!(!v[0].server_st);
    assert!(v[0].client_st);
    assert_eq!(b.record("no summary", &config(), &mut v), Err(NoThroughput));
    assert_eq!(v.len(), 1);
}

fn t(mbps: usize, conn: u32, server: &str, server_st: bool) -> Throughput {
    Throughput {
        mbps,
        conn,
        secs: 4,
        server: server.to_string(),
        client: "c".to_string(),
        server_st,
        client_st: false,
        size: 16384,
        socket_len: 100,
        duration: 4,
        interval: 2,
    }
}

#[test]
fn ranking_is_descending_like_derived_ord() {
    let make = || {
        vec![
            t(10, 1, "b", false),
            t(30, 1, "a", false),
            t(10, 2, "a", false),
            t(10, 1, "a", true),
            t(10, 1, "a", false),
            t(0, 0, "z", false),
            t(10, 1, "ab", false),
            t(10, 1, "a", false),
        ]
    };
    let ranked = rank_throughputs(make());
    let mut expected = make();
    expected.sort_unstable_by(|a, b| b.cmp(a));
    assert_eq!(ranked, expected);
    assert_eq!(ranked[0].mbps, 30);
    assert_eq!(ranked.last().unwrap().mbps, 0);
}
