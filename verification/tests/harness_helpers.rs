use rangemap::inputs::{copy_inserts, mutate_inserts, perturb_inserts, triple_from_draws, triple_from_span};
use rangemap::json::{json_str, report_line};
use rangemap::metrics::{record_run, Metrics};

#[test]
fn triple_from_span_saturates() {
    assert_eq!(triple_from_span(3, 4, -1), (3, 7, -1));
    assert_eq!(triple_from_span(u32::MAX - 1, 5, 2), (u32::MAX - 1, u32::MAX, 2));
}

#[test]
fn triple_from_draws_reduces_draws() {
    assert_eq!(triple_from_draws(35, 9, 7), (3, 5, 3));
    assert_eq!(triple_from_draws(15, 7, -7), (15, 23, -3));
    assert_eq!(triple_from_draws(0, 0, -8), (0, 1, 0));
}

#[test]
fn perturb_modes() {
    let a = vec![(1, 3, 0), (4, 6, 1)];
    assert_eq!(perturb_inserts(&a, 0, 5, 2, 9, 7, 3), a);
    assert_eq!(perturb_inserts(&a, 1, 3, 2, 9, 7, 3), vec![(1, 3, 0), (4, 8, 1)]);
    assert_eq!(perturb_inserts(&a, 2, 4, 2, 9, 7, 3), vec![(1, 3, 9), (4, 6, 1)]);
    assert_eq!(perturb_inserts(&a, 3, 4, 2, 9, 7, 3), vec![(1, 3, 0), (4, 6, 1), (7, 10, 9)]);
    assert_eq!(perturb_inserts(&vec![], 1, 4, 2, 9, 7, 3), vec![(7, 10, 9)]);
    assert_eq!(
        perturb_inserts(&vec![(0, u32::MAX, 1)], 1, 0, 2, 9, 7, 3),
        vec![(0, u32::MAX, 1)]
    );
}

#[test]
fn mutate_ops() {
    let v = vec![(1, 3, 0), (u32::MAX, 6, i32::MAX)];
    assert_eq!(mutate_inserts(&v, 0, 1, 0, 0, 0, 0, 8), vec![(1, 3, 0), (0, 6, i32::MAX)]);
    assert_eq!(mutate_inserts(&v, 0, 3, 1, 0, 0, 0, 8), vec![(1, 3, 0), (u32::MAX, 7, i32::MAX)]);
    assert_eq!(mutate_inserts(&v, 0, 1, 2, 0, 0, 0, 8), vec![(1, 3, 0), (u32::MAX, 6, i32::MIN)]);
    assert_eq!(mutate_inserts(&v, 1, 0, 0, 10, 4, -2, 8), vec![(1, 3, 0), (u32::MAX, 6, i32::MAX), (10, 14, -2)]);
    assert_eq!(mutate_inserts(&v, 1, 0, 0, 10, 4, -2, 2), vec![(1, 3, 0)]);
    assert_eq!(mutate_inserts(&v, 2, 0, 0, 10, 4, -2, 8), vec![(1, 3, 0)]);
    assert_eq!(mutate_inserts(&vec![], 0, 0, 0, 10, 4, -2, 0), vec![]);
    assert_eq!(copy_inserts(&v), v);
}

#[test]
fn metrics_combine_adds() {
    let a = Metrics { inputs: 3, elapsed_us: 10 };
    let b = Metrics { inputs: 4, elapsed_us: 25 };
    let c = a.combine(b);
    assert_eq!(c.inputs, 7);
    assert_eq!(c.elapsed_us, 35);
}

#[test]
fn json_str_escapes() {
    assert_eq!(json_str("plain"), "\"plain\"");
    assert_eq!(json_str("a\"b\\c"), "\"a\\\"b\\\\c\"");
    assert_eq!(json_str("l1\nl2\r\t"), "\"l1\\nl2\\r\\t\"");
    assert_eq!(json_str("\u{1}\u{1f}"), "\"\\u0001\\u001f\"");
    assert_eq!(json_str("é"), "\"é\"");
}

#[test]
fn record_run_stops_at_error() {
    let total = Metrics { inputs: 2, elapsed_us: 5 };
    let (m, stop) = record_run(total, Ok(()), Metrics { inputs: 1, elapsed_us: 7 });
    assert_eq!((m.inputs, m.elapsed_us, stop), (3, 12, None));
    let (m, stop) = record_run(total, Err("bad".to_string()), Metrics { inputs: 4, elapsed_us: 1 });
    assert_eq!((m.inputs, m.elapsed_us, stop), (6, 6, Some("bad".to_string())));
}

#[test]
fn report_line_layout() {
    assert_eq!(
        report_line("etna", "All", "passed", 4, 1234, None, None),
        "{\"status\":\"passed\",\"tests\":4,\"discards\":0,\"time\":\"1234us\",\"counterexample\":null,\"error\":null,\"tool\":\"etna\",\"property\":\"All\"}"
    );
    assert_eq!(
        report_line("hegel", "P", "failed", 0, 0, Some("a=\"x\""), Some("e\n")),
        "{\"status\":\"failed\",\"tests\":0,\"discards\":0,\"time\":\"0us\",\"counterexample\":\"a=\\\"x\\\"\",\"error\":\"e\\n\",\"tool\":\"hegel\",\"property\":\"P\"}"
    );
}
