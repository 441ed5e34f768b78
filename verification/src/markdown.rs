use vstd::prelude::*;
use vstd::string::StrSliceExecFns;
use vstd::string::StringExecFns;
use crate::domain::ExtractedRecord;
use crate::domain::RecordView;
use crate::domain::records_view;
use crate::grouping::GroupKey;
use crate::grouping::key_lt;
use crate::grouping::key_set;
use crate::grouping::filter_by_key;
use crate::grouping::groups_ok;
use crate::grouping::groups_view;
use crate::grouping::group_records;
use crate::text::dec_str;
use crate::text::trim_seq;
use crate::text::trim_str;
use crate::text::usize_to_dec_string;
use crate::utils::sanitize_spec;

verus! {

// ---------------------------------------------------------------------------
// The document text, as a spec-level function
// ---------------------------------------------------------------------------
/// One rendered message block: a header with the author and the display
/// timestamp, the trimmed body (or a placeholder when it is empty), and a
/// separator.
pub open spec fn render_record(r: RecordView) -> Seq<char> {
    let body = if trim_seq(r.content).len() > 0 {
        trim_seq(r.content) + "\n\n"@
    } else {
        "*[No content]*\n\n"@
    };
    "**"@ + r.username + "** *"@ + r.timestamp + "*\n\n"@ + body + "---\n\n"@
}

/// The blocks of all records, in order.
pub open spec fn render_records(rs: Seq<RecordView>) -> Seq<char>
    decreases rs.len(),
{
    if rs.len() == 0 {
        Seq::empty()
    } else {
        render_records(rs.drop_last()) + render_record(rs.last())
    }
}

/// The title block, the message count line, and a separator.
pub open spec fn doc_header(channel: Seq<char>, n: nat) -> Seq<char> {
    "# #"@ + channel + "\n\n"@ + "*"@ + dec_str(n) + " messages*\n\n"@ + "---\n\n"@
}

/// The whole document for a channel and its ordered records; an empty record
/// sequence yields the empty document.
pub open spec fn render_doc(channel: Seq<char>, rs: Seq<RecordView>) -> Seq<char> {
    if rs.len() == 0 {
        Seq::empty()
    } else {
        doc_header(channel, rs.len()) + render_records(rs)
    }
}

proof fn lemma_render_push(rs: Seq<RecordView>, x: RecordView)
    ensures
        render_records(rs.push(x)) == render_records(rs) + render_record(x),
{
    let e = rs.push(x);
    assert(e.drop_last() =~= rs);
    assert(e.last() == x);
}

// ---------------------------------------------------------------------------
// Documents
// ---------------------------------------------------------------------------
/// One output document: the group it renders, its file name, and its text.
pub struct Document {
    pub channel: String,
    pub partition: String,
    pub filename: String,
    pub content: String,
}

/// Mathematical image of a document.
#[verifier::ext_equal]
pub ghost struct DocumentView {
    pub channel: Seq<char>,
    pub partition: Seq<char>,
    pub filename: Seq<char>,
    pub content: Seq<char>,
}

impl DocumentView {
    /// The key of the group this document renders.
    pub open spec fn key(self) -> GroupKey {
        GroupKey { channel: self.channel, partition: self.partition }
    }
}

impl View for Document {
    type V = DocumentView;

    open spec fn view(&self) -> DocumentView {
        DocumentView {
            channel: self.channel@,
            partition: self.partition@,
            filename: self.filename@,
            content: self.content@,
        }
    }
}

/// The images of a sequence of documents, in order.
pub open spec fn documents_view(ds: Seq<Document>) -> Seq<DocumentView> {
    ds.map_values(|d: Document| d@)
}

/// The file name of a group's document: the sanitized channel name, a
/// hyphen, the partition key, and the fixed extension.
pub open spec fn filename_spec(k: GroupKey) -> Seq<char> {
    sanitize_spec(k.channel) + "-"@ + k.partition + ".md"@
}

/// One document is right for the record images `rs` when its file name and
/// its text are the ones its key demands, and its group is non-empty.
pub open spec fn document_matches(rs: Seq<RecordView>, d: DocumentView) -> bool {
    &&& d.filename == filename_spec(d.key())
    &&& d.content == render_doc(d.channel, filter_by_key(rs, d.key()))
    &&& filter_by_key(rs, d.key()).len() > 0
}

/// The whole pipeline contract over the record images `rs`: one right
/// document per distinct key, in strictly ascending key order.
pub open spec fn documents_ok(rs: Seq<RecordView>, ds: Seq<DocumentView>) -> bool {
    &&& forall|i: int, j: int|
        0 <= i < j < ds.len() ==> key_lt((#[trigger] ds[i]).key(), (#[trigger] ds[j]).key())
    &&& forall|i: int| 0 <= i < ds.len() ==> document_matches(rs, #[trigger] ds[i])
    &&& forall|i: int| 0 <= i < ds.len() ==> key_set(rs).contains((#[trigger] ds[i]).key())
    &&& forall|k: GroupKey|
        #[trigger] key_set(rs).contains(k) ==> exists|i: int|
            0 <= i < ds.len() && (#[trigger] ds[i]).key() == k
}

/// The documents demanded for the keys in `ks`: strictly sorted, each right
/// for `rs`, their keys drawn from and covering `ks`.
spec fn docs_for(rs: Seq<RecordView>, ks: Set<GroupKey>, ds: Seq<DocumentView>) -> bool {
    &&& forall|i: int, j: int|
        0 <= i < j < ds.len() ==> key_lt((#[trigger] ds[i]).key(), (#[trigger] ds[j]).key())
    &&& forall|i: int| 0 <= i < ds.len() ==> document_matches(rs, #[trigger] ds[i])
    &&& forall|i: int| 0 <= i < ds.len() ==> ks.contains((#[trigger] ds[i]).key())
    &&& forall|k: GroupKey|
        #[trigger] ks.contains(k) ==> exists|i: int| 0 <= i < ds.len() && (#[trigger] ds[i]).key()
            == k
}

proof fn lemma_docs_for_unique(
    rs: Seq<RecordView>,
    ks: Set<GroupKey>,
    d1: Seq<DocumentView>,
    d2: Seq<DocumentView>,
)
    requires
        docs_for(rs, ks, d1),
        docs_for(rs, ks, d2),
    ensures
        d1 == d2,
    decreases d1.len(),
{
    if d1.len() == 0 {
        if d2.len() > 0 {
            assert(ks.contains(d2[0].key()));
            assert(false);
        }
        assert(d1 =~= d2);
    } else {
        if d2.len() == 0 {
            assert(ks.contains(d1[0].key()));
            assert(false);
        }
        // both heads carry the least key of ks, so they agree
        assert(ks.contains(d1[0].key()));
        assert(ks.contains(d2[0].key()));
        let i = choose|i: int| 0 <= i < d1.len() && (#[trigger] d1[i]).key() == d2[0].key();
        let j = choose|j: int| 0 <= j < d2.len() && (#[trigger] d2[j]).key() == d1[0].key();
        if i != 0 {
            assert(key_lt(d1[0].key(), d1[i].key()));
            if j != 0 {
                assert(key_lt(d2[0].key(), d2[j].key()));
                crate::grouping::lemma_key_asym(d1[0].key(), d2[0].key());
            } else {
                crate::grouping::lemma_key_irrefl(d1[0].key());
            }
            assert(false);
        }
        let k0 = d1[0].key();
        assert(d2[0].key() == k0);
        assert(d1[0] =~= d2[0]) by {
            assert(d1[0].channel == k0.channel);
            assert(d2[0].channel == k0.channel);
            assert(d1[0].partition == k0.partition);
            assert(d2[0].partition == k0.partition);
            assert(d1[0].filename == filename_spec(k0));
            assert(d2[0].filename == filename_spec(k0));
            assert(d1[0].content == render_doc(k0.channel, filter_by_key(rs, k0)));
            assert(d2[0].content == render_doc(k0.channel, filter_by_key(rs, k0)));
        }
        let t1 = d1.drop_first();
        let t2 = d2.drop_first();
        let ks2 = ks.remove(k0);
        assert forall|m: int| 0 <= m < t1.len() implies ks2.contains((#[trigger] t1[m]).key()) by {
            assert(t1[m] == d1[m + 1]);
            assert(key_lt(k0, d1[m + 1].key()));
            crate::grouping::lemma_key_irrefl(k0);
        }
        assert forall|m: int| 0 <= m < t2.len() implies ks2.contains((#[trigger] t2[m]).key()) by {
            assert(t2[m] == d2[m + 1]);
            assert(key_lt(k0, d2[m + 1].key()));
            crate::grouping::lemma_key_irrefl(k0);
        }
        assert forall|k: GroupKey| #[trigger] ks2.contains(k) implies exists|m: int|
            0 <= m < t1.len() && (#[trigger] t1[m]).key() == k by {
            let m = choose|m: int| 0 <= m < d1.len() && (#[trigger] d1[m]).key() == k;
            assert(m != 0);
            assert(t1[m - 1].key() == k);
        }
        assert forall|k: GroupKey| #[trigger] ks2.contains(k) implies exists|m: int|
            0 <= m < t2.len() && (#[trigger] t2[m]).key() == k by {
            let m = choose|m: int| 0 <= m < d2.len() && (#[trigger] d2[m]).key() == k;
            assert(m != 0);
            assert(t2[m - 1].key() == k);
        }
        assert(forall|m: int| 0 <= m < t1.len() ==> #[trigger] t1[m] == d1[m + 1]);
        assert(forall|m: int| 0 <= m < t2.len() ==> #[trigger] t2[m] == d2[m + 1]);
        lemma_docs_for_unique(rs, ks2, t1, t2);
        assert forall|m: int| 0 <= m < d1.len() implies d1[m] == d2[m] by {
            if m > 0 {
                assert(t1[m - 1] == t2[m - 1]);
            }
        }
        assert(d1.len() == d2.len());
        assert(d1 =~= d2);
    }
}

/// The pipeline is a function of its input: any two document sequences that
/// meet the pipeline contract for the same record set are equal. Two runs
/// over unchanged input therefore produce identical documents, file for file
/// and byte for byte.
pub proof fn lemma_documents_unique(
    rs: Seq<RecordView>,
    d1: Seq<DocumentView>,
    d2: Seq<DocumentView>,
)
    requires
        documents_ok(rs, d1),
        documents_ok(rs, d2),
    ensures
        d1 == d2,
{
    lemma_docs_for_unique(rs, key_set(rs), d1, d2);
}

// ---------------------------------------------------------------------------
// The writer adapter
// ---------------------------------------------------------------------------
/// Renders record sets into per-(channel, month) markdown documents destined
/// for a fixed output folder.
pub struct MarkdownWriterAdapter {
    output_folder: String,
}

impl View for MarkdownWriterAdapter {
    type V = Seq<char>;

    closed spec fn view(&self) -> Seq<char> {
        self.output_folder@
    }
}

impl MarkdownWriterAdapter {
    /// A writer aimed at the given output folder.
    pub fn new(output_folder: String) -> (s: Self)
        ensures
            s@ == output_folder@,
    {
        Self { output_folder }
    }

    /// The folder the documents are destined for.
    pub fn output_folder(&self) -> (r: &String)
        ensures
            r@ == self@,
    {
        &self.output_folder
    }

    /// Extracts the `YYYY-MM` prefix of a timestamp string, when it has one.
    pub fn extract_year_month(&self, timestamp: &str) -> (r: Option<String>)
        ensures
            r is Some <==> crate::utils::has_year_month_prefix(timestamp@),
            r is Some ==> r.unwrap()@ == timestamp@.subrange(0, 7),
    {
        crate::utils::extract_year_month(timestamp)
    }

    /// Sanitizes a channel name for use in a file name.
    pub fn sanitize_filename(&self, name: &str) -> (r: String)
        ensures
            r@ == sanitize_spec(name@),
    {
        crate::utils::sanitize_filename(name)
    }

    /// Renders one group's document: a title block, a message count, a
    /// separator, then each record in order. An empty group renders to the
    /// empty document.
    #[verifier::rlimit(50)]
    pub fn format_markdown(&self, channel_name: &str, records: &Vec<ExtractedRecord>) -> (r:
        String)
        ensures
            r@ == render_doc(channel_name@, records_view(records@)),
            records@.len() == 0 ==> r@ == Seq::<char>::empty(),
    {
        let ghost rv = records_view(records@);
        if records.len() == 0 {
            return String::new();
        }
        let mut output = String::new();
        output.append("# #");
        output.append(channel_name);
        output.append("\n\n");
        output.append("*");
        let count = usize_to_dec_string(records.len());
        output.append(count.as_str());
        output.append(" messages*\n\n");
        output.append("---\n\n");
        let ghost header = doc_header(channel_name@, rv.len());
        proof {
            assert(output@ =~= header);
        }
        let n = records.len();
        let mut i: usize = 0;
        while i < n
            invariant
                i <= n,
                n == records@.len(),
                rv == records_view(records@),
                header == doc_header(channel_name@, rv.len()),
                output@ == header + render_records(rv.take(i as int)),
            decreases n - i,
        {
            let rec = &records[i];
            let ghost x = rv[i as int];
            output.append("**");
            output.append(rec.username.as_str());
            output.append("** *");
            output.append(rec.timestamp.as_str());
            output.append("*\n\n");
            let trimmed = trim_str(rec.content.as_str());
            if trimmed.unicode_len() > 0 {
                output.append(trimmed.as_str());
                output.append("\n\n");
            } else {
                output.append("*[No content]*\n\n");
            }
            output.append("---\n\n");
            proof {
                assert(x == records@[i as int]@);
                assert(rv.take(i + 1) =~= rv.take(i as int).push(x));
                lemma_render_push(rv.take(i as int), x);
                assert(output@ =~= header + render_records(rv.take(i + 1)));
            }
            i = i + 1;
        }
        proof {
            assert(rv.take(n as int) =~= rv);
        }
        output
    }

    /// The pure part of writing: groups the records, names each group's
    /// file, and renders each group's document. Nothing touches the
    /// filesystem here.
    pub fn build_documents(&self, records: &Vec<ExtractedRecord>) -> (docs: Vec<Document>)
        ensures
            documents_ok(records_view(records@), documents_view(docs@)),
    {
        let ghost rv = records_view(records@);
        let groups = group_records(records);
        let ghost gv = groups_view(groups@);
        let mut docs: Vec<Document> = Vec::new();
        let n = groups.len();
        let mut i: usize = 0;
        while i < n
            invariant
                i <= n,
                n == groups@.len(),
                rv == records_view(records@),
                gv == groups_view(groups@),
                groups_ok(rv, gv),
                docs@.len() == i,
                forall|j: int|
                    0 <= j < i ==> (#[trigger] documents_view(docs@)[j]).key() == gv[j].key(),
                forall|j: int|
                    0 <= j < i ==> document_matches(rv, #[trigger] documents_view(docs@)[j]),
            decreases n - i,
        {
            let g = &groups[i];
            let mut filename = crate::utils::sanitize_filename(g.channel.as_str());
            filename.append("-");
            filename.append(g.partition.as_str());
            filename.append(".md");
            let content = self.format_markdown(g.channel.as_str(), &g.records);
            let ghost prev = documents_view(docs@);
            let doc = Document {
                channel: g.channel.clone(),
                partition: g.partition.clone(),
                filename,
                content,
            };
            let ghost dview = doc@;
            docs.push(doc);
            proof {
                assert(g == groups@[i as int]);
                assert(gv[i as int] == groups@[i as int]@);
                assert(dview.key() == gv[i as int].key());
                assert(dview.filename =~= filename_spec(dview.key()));
                assert(gv[i as int].records == filter_by_key(rv, gv[i as int].key()));
                assert(dview.content == render_doc(dview.channel, filter_by_key(rv, dview.key())));
                assert(document_matches(rv, dview));
                assert(documents_view(docs@) =~= prev.push(dview));
                assert(forall|j: int|
                    0 <= j < i ==> #[trigger] documents_view(docs@)[j] == prev[j]);
            }
            i = i + 1;
        }
        proof {
            let dv = documents_view(docs@);
            assert forall|k: GroupKey| key_set(rv).contains(k) implies exists|j: int|
                0 <= j < dv.len() && (#[trigger] dv[j]).key() == k by {
                let j = choose|j: int| 0 <= j < gv.len() && (#[trigger] gv[j]).key() == k;
                assert(dv[j].key() == k);
            }
        }
        docs
    }
}

} // verus!
