//! The accumulators a bean and a `<beans>` block are assembled from.
use beans_xml::{BeanCtx, BeansFileCtx, ByteSpan, Spanned};

#[test]
fn ctx_seam_round_trips_a_minimal_bean_and_beans_file() {
    let mut bean_ctx = BeanCtx {
        span: ByteSpan { start: 0, end: 10 },
        ..Default::default()
    };
    bean_ctx.id = Some(Spanned {
        value: "myBean".to_string(),
        span: ByteSpan { start: 1, end: 7 },
    });
    let bean = bean_ctx.into_bean();
    assert_eq!(bean.id.as_ref().map(|s| s.value.as_str()), Some("myBean"));
    assert!(!bean.abstract_);

    let mut file_ctx = BeansFileCtx::default();
    file_ctx.beans.push(bean);
    let file = file_ctx.into_beans_file();
    assert_eq!(file.beans.len(), 1);
    assert_eq!(file.beans[0].id.as_ref().unwrap().value, "myBean");
}
