use vstd::prelude::*;

verus! {

/// Where the payloads of constant values go.
#[derive(Debug)]
pub enum WeightStorageStrategy {
    /// Payloads are dropped.
    Discard,
    /// Payloads are appended to one external file at this location.
    BinFile(String),
    /// Payloads are inlined into the initializer entries.
    EmbeddedData,
}

/// How an initializer entry holds its payload.
#[derive(Clone, Debug, PartialEq, Eq)]
pub enum InitializerData {
    Discarded,
    Raw(Vec<u8>),
    External { location: String, offset: usize, length: usize },
}

/// The state of a weight strategy while payloads are gathered: for the
/// external file, the bytes written so far.
#[derive(Debug)]
pub enum WeightOutputManager {
    Null,
    Bin { location: String, blob: Vec<u8> },
    Embedded,
}

/// `m` is the fresh state of strategy `s`.
pub open spec fn fresh_manager(s: WeightStorageStrategy, m: WeightOutputManager) -> bool {
    match s {
        WeightStorageStrategy::Discard => m is Null,
        WeightStorageStrategy::BinFile(p) => m is Bin && m->Bin_location@ == p@ && m->Bin_blob@.len() == 0,
        WeightStorageStrategy::EmbeddedData => m is Embedded,
    }
}

/// What gathering `data` into state `m` gives: the payload representation and
/// the following state.
pub open spec fn gathered(m: WeightOutputManager, data: Seq<u8>, r: InitializerData, m2: WeightOutputManager) -> bool {
    match m {
        WeightOutputManager::Null => r is Discarded && m2 is Null,
        WeightOutputManager::Bin { location, blob } => {
            &&& r is External
            &&& r->External_location@ == location@
            &&& r->External_offset == blob@.len()
            &&& r->External_length == data.len()
            &&& m2 is Bin
            &&& m2->Bin_location@ == location@
            &&& m2->Bin_blob@ == blob@ + data
        },
        WeightOutputManager::Embedded => r is Raw && r->Raw_0@ == data && m2 is Embedded,
    }
}

/// Appends `src` to `dst`.
pub fn append_bytes(dst: &mut Vec<u8>, src: &Vec<u8>)
    ensures
        final(dst)@ == old(dst)@ + src@,
{
    let mut i: usize = 0;
    while i < src.len()
        invariant
            i <= src@.len(),
            dst@ == old(dst)@ + src@.subrange(0, i as int),
        decreases src@.len() - i,
    {
        dst.push(src[i]);
        i = i + 1;
        assert(dst@ =~= old(dst)@ + src@.subrange(0, i as int));
    }
    assert(src@.subrange(0, src@.len() as int) =~= src@);
}

impl WeightStorageStrategy {
    /// A fresh state for this strategy.
    pub fn get_manager(&self) -> (r: WeightOutputManager)
        ensures
            fresh_manager(*self, r),
    {
        match self {
            WeightStorageStrategy::Discard => WeightOutputManager::Null,
            WeightStorageStrategy::BinFile(path) => WeightOutputManager::Bin { location: path.clone(), blob: Vec::new() },
            WeightStorageStrategy::EmbeddedData => WeightOutputManager::Embedded,
        }
    }
}

impl WeightOutputManager {
    /// Takes one payload: drops it, appends it to the external file, or
    /// copies it inline, and says how the initializer entry refers to it.
    pub fn gather(&mut self, data: &Vec<u8>) -> (r: InitializerData)
        ensures
            gathered(*old(self), data@, r, *final(self)),
    {
        match self {
            WeightOutputManager::Null => InitializerData::Discarded,
            WeightOutputManager::Bin { location, blob } => {
                let offset = blob.len();
                append_bytes(blob, data);
                InitializerData::External { location: location.clone(), offset, length: data.len() }
            },
            WeightOutputManager::Embedded => {
                let mut copy: Vec<u8> = Vec::new();
                append_bytes(&mut copy, data);
                assert(copy@ =~= data@);
                InitializerData::Raw(copy)
            },
        }
    }

    /// Ends gathering and hands back the contents of the external file: the
    /// payloads in the order they were gathered, empty for the other strategies.
    pub fn finalize(self) -> (r: Vec<u8>)
        ensures
            self is Bin ==> r@ == self->Bin_blob@,
            !(self is Bin) ==> r@.len() == 0,
    {
        match self {
            WeightOutputManager::Bin { location, blob } => blob,
            _ => Vec::new(),
        }
    }
}

} // verus!
