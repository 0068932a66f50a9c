use bench_uring::bench::Examples;
use bench_uring::config::{Config, EnvConfig};
use bench_uring::throughput::NoThroughput;

fn examples() -> Examples {
    Examples::new(vec![
        "server_tokio_st".to_string(),
        "server_monoio_mt".to_string(),
        "client_tokio_mt".to_string(),
    ])
}

#[test]
fn a_whole_bench_ranks_every_run() {
    let e = examples();
    let mut run = e.bench();
    assert_eq!(run.plan.len(), 2 * 1 * 4);
    let mut seen = Vec::new();
    while let Some(idx) = run.next_index() {
        assert_eq!(idx, run.throughputs.len());
        let b = &run.plan[idx];
        let mut env = EnvConfig::new();
        b.env.apply(&mut env);
        let config: Config = env.finish();
        let conn = if b.server == "server_tokio_st" { 100 + idx } else { 10 + idx };
        let out = format!("Avg: {conn} ({} / 4s)\n", conn * 4);
        let server = b.server.clone();
        seen.push((server.clone(), conn));
        run.record(&out, &config).unwrap();
        assert_eq!(run.throughputs.last().unwrap().server, server);
    }
    assert_eq!(run.next_index(), None);
    let ranked = run.finish();
    assert_eq!(ranked.len(), 8);
    for w in ranked.windows(2) {
        assert!(w[0] >= w[1]);
    }
    let mut got: Vec<(String, usize)> =
        ranked.iter().map(|t| (t.server.clone(), t.conn as usize)).collect();
    got.sort();
    seen.sort();
    assert_eq!(got, seen);
}

#[test]
fn a_run_without_summary_is_refused() {
    let e = examples();
    let mut run = e.bench();
    let config = Config::defaults();
    assert_eq!(run.record("crashed", &config), Err(NoThroughput));
    assert!(run.throughputs.is_empty());
    assert_eq!(run.next_index(), Some(0));
}
