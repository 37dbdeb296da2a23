use shenhe::{
    load_dict, load_lemma, rewrite_unit, rewrite_units, split_units, transform_text, DictRecord,
    Progress, Rewriter, RubyAnnotator, Scanner, StringHashMap, UnclosedMarkup, Unit,
};

const DICT_CSV: &str = "\
id,word,phoneme,full_def,short_def,example_sentences,hint_lvl
1,pictorial,/pɪkˈtɔriəl/,of or relating to painting or drawing,relating to a drawing,,1
2,span,/ˈspæn/,the period of time between two events,a period of time,,1
3,versatile,,able to do many different things,able to do different things,,4
";

const LEMMA_CSV: &str = "lemma,form\npictorial,pictorials\n";

fn dict() -> StringHashMap<DictRecord> {
    load_dict(DICT_CSV.as_bytes()).unwrap()
}

fn lemmas() -> StringHashMap<String> {
    load_lemma(LEMMA_CSV.as_bytes()).unwrap()
}

fn describe(unit: &Unit) -> (bool, String) {
    match unit {
        Unit::Text(text) => (true, text.clone()),
        Unit::Markup(tag) => (false, tag.clone()),
    }
}

fn units_of(text: &str) -> Vec<(bool, String)> {
    split_units(text).unwrap().iter().map(describe).collect()
}

fn stream(document: &str, report_every: u64, hint_level: i32) -> Result<(String, Vec<u64>), UnclosedMarkup> {
    let dict = dict();
    let lemmas = lemmas();
    let annotator = RubyAnnotator {};
    let mut rewriter = Rewriter::new(report_every);
    let mut out = String::new();
    let mut reports = Vec::new();
    for c in document.chars() {
        if let Some(emission) = rewriter.feed(&annotator, c, &dict, &lemmas, 1, false, hint_level) {
            out.push_str(&emission.output);
            reports.extend(emission.report);
        }
    }
    if let Some(emission) = rewriter.finish(&annotator, &dict, &lemmas, 1, false, hint_level)? {
        out.push_str(&emission.output);
        reports.extend(emission.report);
    }
    Ok((out, reports))
}

#[test]
fn markup_is_never_transformed() {
    let dict = dict();
    let lemmas = lemmas();
    let annotator = RubyAnnotator {};
    for tag in ["<span>", "</span>", "<p class=\"pictorial  span\">", "<img alt='a span'  />", "<!-- pictorial -->", "<>"] {
        let unit = Unit::Markup(tag.to_string());
        assert_eq!(rewrite_unit(&annotator, &unit, &dict, &lemmas, 1, false, 1), tag);
    }
    let (out, _) = stream("<span class=\"pictorial\">  <b\n>", 1, 1).unwrap();
    assert_eq!(out, "<span class=\"pictorial\">  <b\n>");
}

#[test]
fn blank_text_is_passed_through() {
    let dict = dict();
    let lemmas = lemmas();
    let annotator = RubyAnnotator {};
    for blank in ["", " ", "\n\t  ", "\u{a0}\u{3000}", "\r\n"] {
        assert_eq!(transform_text(&annotator, blank, &dict, &lemmas, 1, false, 1), blank);
        let unit = Unit::Text(blank.to_string());
        assert_eq!(rewrite_unit(&annotator, &unit, &dict, &lemmas, 1, false, 1), blank);
    }
}

#[test]
fn text_is_annotated() {
    let dict = dict();
    let lemmas = lemmas();
    let annotator = RubyAnnotator {};
    assert_eq!(
        transform_text(&annotator, "  A pictorial\n span. ", &dict, &lemmas, 1, false, 1),
        "A <ruby>pictorial<rt>relating to a drawing</rt></ruby> <ruby>span<rt>a period of time</rt></ruby>."
    );
    let unit = Unit::Text("pictorials".to_string());
    assert_eq!(
        rewrite_unit(&annotator, &unit, &dict, &lemmas, 2, true, 1),
        "<ruby>pictorials<rt>/pɪkˈtɔriəl/ of or relating to painting or drawing</rt></ruby>"
    );
    assert_eq!(transform_text(&annotator, "no  entry here", &dict, &lemmas, 1, false, 1), "no entry here");
}

#[test]
fn split_units_cuts_at_tags() {
    assert_eq!(
        units_of("<p>A span</p>\n"),
        vec![
            (false, "<p>".to_string()),
            (true, "A span".to_string()),
            (false, "</p>".to_string()),
            (true, "\n".to_string()),
        ]
    );
    assert_eq!(units_of(""), Vec::<(bool, String)>::new());
    assert_eq!(units_of("plain"), vec![(true, "plain".to_string())]);
    assert_eq!(units_of("<a><b>"), vec![(false, "<a>".to_string()), (false, "<b>".to_string())]);
    assert_eq!(units_of("a > b"), vec![(true, "a > b".to_string())]);
    assert_eq!(units_of("x<a <b>y"), vec![(true, "x".to_string()), (false, "<a <b>".to_string()), (true, "y".to_string())]);
}

#[test]
fn split_units_loses_nothing() {
    for document in ["", "a", "<a>", "a<b>c", "<p>A span</p>\n", "1 > 0 <br/> 大家 <i>好</i>!", ">>><x>>>"] {
        let joined: String = split_units(document).unwrap().iter().map(|unit| describe(unit).1).collect();
        assert_eq!(joined, document);
    }
}

#[test]
fn a_document_that_ends_inside_a_tag_is_refused() {
    assert_eq!(split_units("<p>text<b").err(), Some(UnclosedMarkup));
    assert_eq!(split_units("<").err(), Some(UnclosedMarkup));
    assert_eq!(stream("<p>pictorial<", 1, 1).err(), Some(UnclosedMarkup));
    let mut scanner = Scanner::new();
    assert!(scanner.feed('<').is_none());
    assert!(scanner.feed('a').is_none());
    assert!(scanner.finish().is_err());
}

#[test]
fn scanner_hands_out_units_as_they_complete() {
    let mut scanner = Scanner::new();
    assert!(scanner.feed('h').is_none());
    assert!(scanner.feed('i').is_none());
    assert_eq!(describe(&scanner.feed('<').unwrap()), (true, "hi".to_string()));
    assert!(scanner.feed('b').is_none());
    assert_eq!(describe(&scanner.feed('>').unwrap()), (false, "<b>".to_string()));
    assert!(scanner.feed('<').is_none());
    assert!(scanner.feed('<').is_none());
    assert_eq!(describe(&scanner.feed('>').unwrap()), (false, "<<>".to_string()));
    assert!(scanner.feed('>').is_none());
    assert_eq!(describe(&scanner.finish().unwrap().unwrap()), (true, ">".to_string()));
    assert!(Scanner::new().finish().unwrap().is_none());
}

#[test]
fn rewrite_units_annotates_text_between_tags() {
    let dict = dict();
    let lemmas = lemmas();
    let annotator = RubyAnnotator {};
    let document = "<p class=\"span\">A pictorial <b>span</b>.</p>\n";
    let units = split_units(document).unwrap();
    assert_eq!(
        rewrite_units(&annotator, &units, &dict, &lemmas, 1, false, 1),
        "<p class=\"span\">A <ruby>pictorial<rt>relating to a drawing</rt></ruby><b><ruby>span<rt>a period of time</rt></ruby></b>.</p>\n"
    );
    assert_eq!(rewrite_units(&annotator, &units, &dict, &lemmas, 1, false, 2), "<p class=\"span\">A pictorial<b>span</b>.</p>\n");
    assert_eq!(rewrite_units(&annotator, &Vec::new(), &dict, &lemmas, 1, false, 1), "");
}

#[test]
fn rewriter_streams_what_rewrite_units_assembles() {
    let dict = dict();
    let lemmas = lemmas();
    let annotator = RubyAnnotator {};
    for document in ["", "pictorials", "<p>A pictorial <b>span</b>.</p>\n", "<br/><br/>", "a versatile <i>span</i> of\ntime"] {
        for level in [1, 2, 4, 5] {
            let units = split_units(document).unwrap();
            let assembled = rewrite_units(&annotator, &units, &dict, &lemmas, 1, false, level);
            let (streamed, _) = stream(document, 0, level).unwrap();
            assert_eq!(streamed, assembled);
        }
    }
}

#[test]
fn progress_reports_every_nth_unit() {
    let mut progress = Progress::new(3);
    let reports: Vec<Option<u64>> = (0..7).map(|_| progress.advance()).collect();
    assert_eq!(reports, vec![None, None, Some(3), None, None, Some(6), None]);
    assert_eq!(progress.done, 7);
    let mut each = Progress::new(1);
    assert_eq!(each.advance(), Some(1));
    assert_eq!(each.advance(), Some(2));
    let mut never = Progress::new(0);
    assert_eq!(never.advance(), None);
    assert_eq!(never.advance(), None);
    assert_eq!(never.done, 2);
}

#[test]
fn progress_stays_at_the_largest_count() {
    let mut progress = Progress { done: u64::MAX - 1, every: 1 };
    assert_eq!(progress.advance(), Some(u64::MAX));
    assert_eq!(progress.advance(), None);
    assert_eq!(progress.advance(), None);
    assert_eq!(progress.done, u64::MAX);
}

#[test]
fn rewriter_reports_rising_counts() {
    let (out, reports) = stream("<p>a</p><p>b</p><p>c</p>tail", 2, 1).unwrap();
    assert_eq!(out, "<p>a</p><p>b</p><p>c</p>tail");
    assert_eq!(reports, vec![2, 4, 6, 8, 10]);
    let (_, reports) = stream("<p>a</p><p>b</p><p>c</p>tail", 1, 1).unwrap();
    assert_eq!(reports, (1..=10).collect::<Vec<u64>>());
    let (_, reports) = stream("<p>a</p>", 0, 1).unwrap();
    assert!(reports.is_empty());
}
