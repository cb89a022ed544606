use pipeline::ml::{ml_work_list, MlReport, NeedsMl};

fn needs(id: i64, path: &str) -> NeedsMl {
    NeedsMl { file_id: id, path: path.to_string(), content_hash: id as u128 }
}

#[test]
fn each_file_is_loaded_once_for_all_its_models() {
    let emb = vec![needs(1, "/a"), needs(2, "/b")];
    let iqa = vec![needs(2, "/b"), needs(3, "/c")];
    let work = ml_work_list(&emb, &iqa);
    let got: Vec<(i64, &str, bool, bool)> =
        work.iter().map(|w| (w.file_id, w.path.as_str(), w.want_embedding, w.want_iqa)).collect();
    assert_eq!(got, vec![(1, "/a", true, false), (2, "/b", true, true), (3, "/c", false, true)]);
    assert!(ml_work_list(&[], &[]).is_empty());
    let r = MlReport::default();
    assert_eq!((r.embedded, r.iqa_scored, r.errored), (0, 0, 0));
}
