use fastrace::id::SpanContext;
use fastrace::id::SpanId;
use fastrace::id::TraceId;

#[test]
fn w3c_traceparent() {
    let span_context = SpanContext::decode_w3c_traceparent(
        "00-0af7651916cd43dd8448eb211c80319c-b7ad6b7169203331-01",
    )
    .unwrap();
    assert_eq!(
        span_context.trace_id,
        TraceId(0x0af7651916cd43dd8448eb211c80319c)
    );
    assert_eq!(span_context.span_id, SpanId(0xb7ad6b7169203331));

    assert_eq!(
        span_context.encode_w3c_traceparent(),
        "00-0af7651916cd43dd8448eb211c80319c-b7ad6b7169203331-01"
    );
    assert_eq!(
        span_context.sampled(false).encode_w3c_traceparent(),
        "00-0af7651916cd43dd8448eb211c80319c-b7ad6b7169203331-00"
    );

    assert!(
        !SpanContext::decode_w3c_traceparent(
            "00-0af7651916cd43dd8448eb211c80319c-b7ad6b7169203331-00",
        )
        .unwrap()
        .sampled
    );
    assert!(
        SpanContext::decode_w3c_traceparent(
            "00-0af7651916cd43dd8448eb211c80319c-b7ad6b7169203331-01",
        )
        .unwrap()
        .sampled
    );
    assert!(
        !SpanContext::decode_w3c_traceparent(
            "00-0af7651916cd43dd8448eb211c80319c-b7ad6b7169203331-10",
        )
        .unwrap()
        .sampled
    );
}

#[test]
fn encode_pads_with_zeros() {
    let ctx = SpanContext::new(TraceId(12), SpanId(34));
    assert_eq!(
        ctx.encode_w3c_traceparent(),
        "00-0000000000000000000000000000000c-0000000000000022-01"
    );
}

#[test]
fn encode_with_sampled_overrides_flag() {
    let ctx = SpanContext::new(TraceId(1), SpanId(2));
    assert_eq!(
        ctx.encode_w3c_traceparent_with_sampled(false),
        "00-00000000000000000000000000000001-0000000000000002-00"
    );
    assert!(ctx.sampled);
}

#[test]
fn round_trip_of_extremes() {
    for ctx in [
        SpanContext::new(TraceId(0), SpanId(0)),
        SpanContext::new(TraceId(u128::MAX), SpanId(u64::MAX)).sampled(false),
        SpanContext::new(TraceId(0x0123456789abcdef), SpanId(0xfedcba98)),
    ] {
        let text = ctx.encode_w3c_traceparent();
        assert_eq!(SpanContext::decode_w3c_traceparent(&text), Some(ctx));
    }
}

#[test]
fn round_trip_of_random_contexts() {
    for _ in 0..100 {
        let ctx = SpanContext::new(TraceId::random(), SpanId::random());
        let text = ctx.encode_w3c_traceparent();
        assert_eq!(text.len(), 55);
        assert_eq!(SpanContext::decode_w3c_traceparent(&text), Some(ctx));
    }
}

#[test]
fn upper_case_digits_are_accepted() {
    let ctx = SpanContext::decode_w3c_traceparent(
        "00-0AF7651916CD43DD8448EB211C80319C-B7AD6B7169203331-01",
    )
    .unwrap();
    assert_eq!(ctx.trace_id, TraceId(0x0af7651916cd43dd8448eb211c80319c));
    assert_eq!(ctx.span_id, SpanId(0xb7ad6b7169203331));
}

#[test]
fn malformed_traceparents_are_rejected() {
    for text in [
        "",
        "00",
        "00-0af7651916cd43dd8448eb211c80319c-b7ad6b7169203331",
        "00-0af7651916cd43dd8448eb211c80319c-b7ad6b7169203331-01-00",
        "01-0af7651916cd43dd8448eb211c80319c-b7ad6b7169203331-01",
        "00-0af7651916cd43dd8448eb211c80319g-b7ad6b7169203331-01",
        "00-0af7651916cd43dd8448eb211c80319c-b7ad6b716920333x-01",
        "00-0af7651916cd43dd8448eb211c80319c-b7ad6b7169203331-0z",
        "00-0af7651916cd43dd8448eb211c80319-cb7ad6b7169203331-01",
        "00-0af7651916cd43dd8448eb211c80319c-b7ad6b7169203331-1",
        "00-0af7651916cd43dd8448eb211c80319c-b7ad6b7169203331-0é",
    ] {
        assert_eq!(SpanContext::decode_w3c_traceparent(text), None, "{text}");
    }
}

#[test]
fn random_context_is_sampled_root() {
    let ctx = SpanContext::random();
    assert_eq!(ctx.span_id, SpanId(0));
    assert!(ctx.sampled);
}
