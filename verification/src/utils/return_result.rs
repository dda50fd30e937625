//! The header and records that a library call hands back.
use vstd::prelude::*;

verus! {

pub struct ResultData {
    header: Vec<String>,
    data: Vec<Vec<String>>,
}

impl ResultData {
    pub closed spec fn header_view(&self) -> Seq<String> {
        self.header@
    }

    pub closed spec fn records(&self) -> Seq<Vec<String>> {
        self.data@
    }

    pub fn new() -> (r: ResultData)
        ensures
            r.header_view().len() == 0,
            r.records().len() == 0,
    {
        ResultData { header: Vec::new(), data: Vec::new() }
    }

    pub fn insert_header(&mut self, header: Vec<String>)
        ensures
            final(self).header_view() == header@,
            final(self).records() == old(self).records(),
    {
        self.header = header;
    }

    pub fn insert_record(&mut self, record: Vec<String>)
        ensures
            final(self).header_view() == old(self).header_view(),
            final(self).records() == old(self).records().push(record),
    {
        self.data.push(record);
    }

    /// The header.
    pub fn header(&self) -> (h: &Vec<String>)
        ensures
            h@ == self.header_view(),
    {
        &self.header
    }

    /// The records, in the order they were inserted.
    pub fn data(&self) -> (d: &Vec<Vec<String>>)
        ensures
            d@ == self.records(),
    {
        &self.data
    }
}

} // verus!
