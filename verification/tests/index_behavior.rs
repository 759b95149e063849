//! Behavior of the two index representations: order independence of inserts,
//! agreement between representations, conversion, boundary sensitivity, and
//! Unicode handling.

use indexrs::{FullTextIndex, FullTextQueriable, InvertIndex, MergeIndex};

#[test]
fn integer_keys_invert() {
    let mut baar = InvertIndex::<u32>::default();
    baar.insert(69, "boof");
    baar.insert(420, "foob");

    let mut fooo = InvertIndex::<u32>::default();
    fooo.insert(420, "foob");
    fooo.insert(69, "boof");

    assert_eq!(baar.index, fooo.index);
    assert_eq!(baar.query("oof"), fooo.query("oof"));
}

#[test]
fn str_keys_invert() {
    let mut quux = InvertIndex::<&str>::default();
    quux.insert("pleased", "boof");
    quux.insert("blazed", "foob");

    let mut baaz = InvertIndex::<&str>::default();
    baaz.insert("blazed", "foob");
    baaz.insert("pleased", "boof");

    assert_eq!(quux.index, baaz.index);
    assert_eq!(quux.query("oof"), baaz.query("oof"));
}

#[test]
fn integer_keys_merge() {
    let mut baar = MergeIndex::<u32>::default();
    baar.insert(69, "boof");
    baar.insert(420, "foob");

    let mut fooo = MergeIndex::<u32>::default();
    fooo.insert(420, "foob");
    fooo.insert(69, "boof");

    assert_eq!(baar.index, fooo.index);
    assert_eq!(baar.query("oof"), fooo.query("oof"));
}

#[test]
fn str_keys_merge() {
    let mut quux = MergeIndex::<&str>::default();
    quux.insert("pleased", "boof");
    quux.insert("blazed", "foob");

    let mut baaz = MergeIndex::<&str>::default();
    baaz.insert("blazed", "foob");
    baaz.insert("pleased", "boof");

    assert_eq!(quux.index, baaz.index);
    assert_eq!(quux.query("oof"), baaz.query("oof"));
}

#[test]
fn invert_vs_merge() {
    let mut baar = InvertIndex::<u32>::default();
    baar.insert(69, "boof");
    baar.insert(420, "foob");

    let mut fooo = MergeIndex::<u32>::default();
    fooo.insert(420, "foob");
    fooo.insert(69, "boof");

    assert_eq!(baar.query("oof"), fooo.query("oof"));
}

#[test]
fn invert_vs_merge_from() {
    let mut baar = InvertIndex::<u32>::default();
    baar.insert(69, "boof");
    baar.insert(420, "foob");

    let fooo = MergeIndex::from(baar.clone());

    assert_eq!(baar.query("oof"), fooo.query("oof"));
}

#[test]
fn merge_vs_invert_from() {
    let mut baar = MergeIndex::<u32>::default();
    baar.insert(69, "boof");
    baar.insert(420, "foob");

    let fooo = InvertIndex::from(baar.clone());

    assert_eq!(baar.query("oof"), fooo.query("oof"));
}

#[test]
fn test_start_end_sensitive() {
    let mut baar = InvertIndex::<&str>::default();

    baar.insert_bounded("blazed", "Adiaeresis");
    baar.insert_bounded("crazed", "Aacute");
    baar.insert_bounded("pleased", "A");

    assert_eq!(baar.query_bounded("A")[0], "pleased");
    assert_eq!(baar.query_bounded("Ate")[0], "crazed");
    assert_eq!(baar.query_bounded("Ais")[0], "blazed");
    assert_eq!(baar.query_bounded("Ad")[0], "blazed");
}

#[test]
fn test_multibyte() {
    let mut baar = InvertIndex::<&str>::default();

    baar.insert_bounded("chickity", "中ity中國，這中華的雞");
    baar.insert_bounded("kurosawa", "like 黒沢 I make mad films");
    baar.insert_bounded(
        "sushi",
        "I like the 寿司 'cause it's never touched a frying pan",
    );

    assert_eq!(baar.query_bounded("寿司")[0], "sushi");
    assert_eq!(baar.query_bounded("黒沢")[0], "kurosawa");
    assert_eq!(baar.query_bounded("中華的雞")[0], "chickity");
}

#[test]
fn test_sub_grapheme_match() {
    let mut baar = InvertIndex::<&str>::default();

    baar.insert_bounded("제11조 ①", "제11조 ① 모든 국민은 법 앞에 평등하다. 누구든지 성별·종교 또는 사회적 신분에 의하여 정치적·경제적·사회적·문화적 생활의 모든 영역에 있어서 차별을 받지 아니한다.");
    baar.insert_bounded("-e", "법률에");
    baar.insert_bounded("-i", "법률이");

    assert_eq!(
        baar.query_bounded("모든 국민은 법 앞에 평등하ᄃ")[0],
        "제11조 ①"
    );
    assert_eq!(baar.query_bounded("법률이")[0], "-i");
    assert_eq!(baar.query_bounded("법률에")[0], "-e");
    assert_eq!(baar.query_bounded("법률이")[1], "-e");
}

#[test]
fn test_immutable_index() {
    let mut foo = InvertIndex::<&str>::default();
    foo.insert("for example", "例えば");
    foo.insert("for example", "例如");
    foo.insert("if so", "如果是這樣");
    foo.insert("if so", "もしそうなら");
    let bar = foo.clone();
    bar.query("例");
}
