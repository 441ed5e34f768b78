use vstd::prelude::*;

verus! {

/// One extracted message: the channel it was posted in, its author,
/// its raw timestamp as delivered by the store, and its body.
/// Records are plain values; they are never mutated after creation.
#[derive(Debug)]
pub struct ExtractedRecord {
    pub channel_name: String,
    pub username: String,
    pub timestamp: String,
    pub content: String,
}

/// Mathematical image of a record: the four fields as character sequences.
pub ghost struct RecordView {
    pub channel_name: Seq<char>,
    pub username: Seq<char>,
    pub timestamp: Seq<char>,
    pub content: Seq<char>,
}

impl View for ExtractedRecord {
    type V = RecordView;

    open spec fn view(&self) -> RecordView {
        RecordView {
            channel_name: self.channel_name@,
            username: self.username@,
            timestamp: self.timestamp@,
            content: self.content@,
        }
    }
}

impl Clone for ExtractedRecord {
    /// A clone is field-for-field equal to the original.
    fn clone(&self) -> (r: Self)
        ensures
            r == *self,
    {
        ExtractedRecord {
            channel_name: self.channel_name.clone(),
            username: self.username.clone(),
            timestamp: self.timestamp.clone(),
            content: self.content.clone(),
        }
    }
}

/// The images of a sequence of records, in order.
pub open spec fn records_view(s: Seq<ExtractedRecord>) -> Seq<RecordView> {
    s.map_values(|r: ExtractedRecord| r@)
}

} // verus!
