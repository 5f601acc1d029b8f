//! The header of a file together with what is worked out from it: the
//! affine to world space and the names of the channels.

use crate::affine::get_affine_and_translation;
use crate::cheader::{
    add_name_outcome, name_written, table_names, table_ok, CHeader, HeaderError, ONE,
};
use vstd::prelude::*;
use vstd::string::*;
use vstd::utf8::encode_utf8;

verus! {

/// A header ready for use: the header as it lies on disk, the affine to
/// world space that follows from it, and the names of its channels.
#[derive(Clone, Debug)]
pub struct Header {
    /// The header as it lies on disk.
    pub c_header: CHeader,
    /// The 4x4 affine from the space of the file to world space, column
    /// after column, as bits.
    pub affine4_to_rasmm: [u32; 16],
    /// The linear part of that affine, column after column.
    pub affine_to_rasmm: [u32; 9],
    /// The translation of that affine.
    pub translation: [u32; 3],
    pub nb_streamlines: usize,
    pub scalars_name: Vec<String>,
    pub properties_name: Vec<String>,
}

/// The text of each name.
pub open spec fn texts(names: Seq<String>) -> Seq<Seq<char>> {
    Seq::new(names.len(), |i: int| names[i]@)
}

/// What adding the names from `from` on, one after the other, to a table
/// that holds `from` names comes to: the first refusal, if there is one.
pub open spec fn first_refusal(names: Seq<Seq<char>>, from: int) -> Result<(), HeaderError>
    decreases names.len() - from,
{
    if from >= names.len() {
        Ok(())
    } else if add_name_outcome(from, names[from]).is_err() {
        add_name_outcome(from, names[from])
    } else {
        first_refusal(names, from + 1)
    }
}

/// The table in which the first `k` of `names` are written, one to a slot.
pub open spec fn table_of(names: Seq<Seq<char>>, k: int) -> Seq<u8>
    decreases k,
{
    if k <= 0 {
        Seq::new(200, |i: int| 0u8)
    } else {
        name_written(table_of(names, k - 1), k - 1, encode_utf8(names[k - 1]))
    }
}

/// The bits of the 4x4 identity.
pub open spec fn identity4() -> Seq<u32> {
    seq![ONE, 0u32, 0u32, 0u32, 0u32, ONE, 0u32, 0u32, 0u32, 0u32, ONE, 0u32, 0u32, 0u32, 0u32, ONE]
}

/// The bits of the 3x3 identity.
pub open spec fn identity3() -> Seq<u32> {
    seq![ONE, 0u32, 0u32, 0u32, ONE, 0u32, 0u32, 0u32, ONE]
}

impl Header {
    /// This header with other scalar channels.
    pub open spec fn with_scalars(self, c_header: CHeader, names: Vec<String>) -> Header {
        Header { c_header, scalars_name: names, ..self }
    }

    /// This header with other property channels.
    pub open spec fn with_properties(self, c_header: CHeader, names: Vec<String>) -> Header {
        Header { c_header, properties_name: names, ..self }
    }

    /// The header that goes with the raw header `c_header` and with
    /// `affine4`, the affine to world space worked out from it. Fails where
    /// a name table of `c_header` cannot be read.
    pub fn from_raw(c_header: CHeader, affine4: [u32; 16]) -> (res: Result<Header, HeaderError>)
        ensures
            res.is_ok() <==> table_ok(c_header.scalar_name@) && table_ok(c_header.property_name@),
            res matches Err(e) ==> e == HeaderError::InvalidName,
            res matches Ok(h) ==> {
                &&& h.c_header == c_header
                &&& h.affine4_to_rasmm == affine4
                &&& h.affine_to_rasmm@ == seq![
                    affine4@[0],
                    affine4@[1],
                    affine4@[2],
                    affine4@[4],
                    affine4@[5],
                    affine4@[6],
                    affine4@[8],
                    affine4@[9],
                    affine4@[10],
                ]
                &&& h.translation@ == seq![affine4@[12], affine4@[13], affine4@[14]]
                &&& h.nb_streamlines == c_header.n_count as usize
                &&& h.scalars_name@.len() == table_names(c_header.scalar_name@).len()
                &&& forall|i: int|
                    0 <= i < h.scalars_name@.len() ==> encode_utf8(#[trigger] h.scalars_name@[i]@)
                        == table_names(c_header.scalar_name@)[i]
                &&& h.properties_name@.len() == table_names(c_header.property_name@).len()
                &&& forall|i: int|
                    0 <= i < h.properties_name@.len() ==> encode_utf8(
                        #[trigger] h.properties_name@[i]@,
                    ) == table_names(c_header.property_name@)[i]
            },
    {
        let scalars_name = match c_header.get_scalars_name() {
            Ok(names) => names,
            Err(e) => {
                return Err(e);
            },
        };
        let properties_name = match c_header.get_properties_name() {
            Ok(names) => names,
            Err(e) => {
                return Err(e);
            },
        };
        let (affine, translation) = get_affine_and_translation(&affine4);
        let nb_streamlines = #[verifier::truncate]
        (c_header.n_count as usize);
        Ok(
            Header {
                c_header,
                affine4_to_rasmm: affine4,
                affine_to_rasmm: affine,
                translation,
                nb_streamlines,
                scalars_name,
                properties_name,
            },
        )
    }

    /// A copy of the header as it lies on disk.
    pub fn raw_header(&self) -> (c: CHeader)
        ensures
            c == self.c_header,
    {
        self.c_header
    }

    /// Removes every scalar and every property channel.
    pub fn clear_scalars_and_properties(&mut self)
        ensures
            final(self).scalars_name@.len() == 0,
            final(self).properties_name@.len() == 0,
            final(self).c_header.n_scalars == 0,
            final(self).c_header.n_properties == 0,
            final(self).c_header.scalar_name@ == Seq::new(200, |i: int| 0u8),
            final(self).c_header.property_name@ == Seq::new(200, |i: int| 0u8),
            final(self).c_header == old(self).c_header.with_scalars(
                0,
                final(self).c_header.scalar_name,
            ).with_properties(0, final(self).c_header.property_name),
            *final(self) == old(self).with_scalars(
                final(self).c_header,
                final(self).scalars_name,
            ).with_properties(final(self).c_header, final(self).properties_name),
    {
        self.clear_scalars();
        self.clear_properties();
    }

    /// Removes every scalar channel.
    pub fn clear_scalars(&mut self)
        ensures
            final(self).scalars_name@.len() == 0,
            final(self).c_header.n_scalars == 0,
            final(self).c_header.scalar_name@ == Seq::new(200, |i: int| 0u8),
            final(self).c_header == old(self).c_header.with_scalars(
                0,
                final(self).c_header.scalar_name,
            ),
            *final(self) == old(self).with_scalars(final(self).c_header, final(self).scalars_name),
    {
        self.scalars_name.clear();
        self.c_header.clear_scalars();
    }

    /// Removes every property channel.
    pub fn clear_properties(&mut self)
        ensures
            final(self).properties_name@.len() == 0,
            final(self).c_header.n_properties == 0,
            final(self).c_header.property_name@ == Seq::new(200, |i: int| 0u8),
            final(self).c_header == old(self).c_header.with_properties(
                0,
                final(self).c_header.property_name,
            ),
            *final(self) == old(self).with_properties(
                final(self).c_header,
                final(self).properties_name,
            ),
    {
        self.properties_name.clear();
        self.c_header.clear_properties();
    }

    /// Adds a scalar channel called `name`, or fails as the raw header does
    /// and changes nothing.
    pub fn add_scalar(&mut self, name: &str) -> (res: Result<(), HeaderError>)
        ensures
            res == add_name_outcome(old(self).c_header.n_scalars as int, name@),
            res.is_err() ==> *final(self) == *old(self),
            res.is_ok() ==> {
                &&& final(self).scalars_name@.len() == old(self).scalars_name@.len() + 1
                &&& final(self).scalars_name@.last()@ == name@
                &&& final(self).scalars_name@.drop_last() == old(self).scalars_name@
                &&& final(self).c_header.n_scalars == old(self).c_header.n_scalars + 1
                &&& final(self).c_header.scalar_name@ == name_written(
                    old(self).c_header.scalar_name@,
                    old(self).c_header.n_scalars as int,
                    encode_utf8(name@),
                )
                &&& final(self).c_header == old(self).c_header.with_scalars(
                    final(self).c_header.n_scalars,
                    final(self).c_header.scalar_name,
                )
                &&& *final(self) == old(self).with_scalars(
                    final(self).c_header,
                    final(self).scalars_name,
                )
            },
    {
        match self.c_header.add_scalar(name) {
            Ok(()) => {},
            Err(e) => {
                return Err(e);
            },
        }
        self.scalars_name.push(name.to_owned());
        proof {
            assert(self.scalars_name@.drop_last() =~= old(self).scalars_name@);
        }
        Ok(())
    }

    /// Adds a property channel called `name`, or fails as the raw header
    /// does and changes nothing.
    pub fn add_property(&mut self, name: &str) -> (res: Result<(), HeaderError>)
        ensures
            res == add_name_outcome(old(self).c_header.n_properties as int, name@),
            res.is_err() ==> *final(self) == *old(self),
            res.is_ok() ==> {
                &&& final(self).properties_name@.len() == old(self).properties_name@.len() + 1
                &&& final(self).properties_name@.last()@ == name@
                &&& final(self).properties_name@.drop_last() == old(self).properties_name@
                &&& final(self).c_header.n_properties == old(self).c_header.n_properties + 1
                &&& final(self).c_header.property_name@ == name_written(
                    old(self).c_header.property_name@,
                    old(self).c_header.n_properties as int,
                    encode_utf8(name@),
                )
                &&& final(self).c_header == old(self).c_header.with_properties(
                    final(self).c_header.n_properties,
                    final(self).c_header.property_name,
                )
                &&& *final(self) == old(self).with_properties(
                    final(self).c_header,
                    final(self).properties_name,
                )
            },
    {
        match self.c_header.add_property(name) {
            Ok(()) => {},
            Err(e) => {
                return Err(e);
            },
        }
        self.properties_name.push(name.to_owned());
        proof {
            assert(self.properties_name@.drop_last() =~= old(self).properties_name@);
        }
        Ok(())
    }

    /// Appends the header as it lies on disk to `out`, lowest byte first.
    pub fn write(&self, out: &mut Vec<u8>)
        ensures
            final(out)@ == old(out)@ + self.c_header.encode(crate::bytes::Endianness::Little),
            final(out)@.len() == old(out)@.len() + crate::cheader::HEADER_SIZE,
    {
        self.c_header.write(out)
    }
}

/// Whether all of `names` can be added, one after the other, to an empty
/// name table, and if not, why the first of them that cannot is refused.
pub fn check_names(names: &Vec<String>) -> (res: Result<(), HeaderError>)
    ensures
        res == first_refusal(texts(names@), 0),
{
    let n = names.len();
    let mut i: usize = 0;
    while i < n
        invariant
            n == names@.len(),
            0 <= i <= n,
            first_refusal(texts(names@), 0) == first_refusal(texts(names@), i as int),
        decreases n - i,
    {
        let name = names[i].as_str();
        assert(texts(names@)[i as int] == name@);
        if i >= 10 {
            return Err(HeaderError::Full);
        }
        if name.as_bytes().len() > 20 {
            return Err(HeaderError::NameTooLong);
        }
        if !name.is_ascii() {
            return Err(HeaderError::NotAscii);
        }
        i = i + 1;
    }
    Ok(())
}

/// Names that can all be added can each be added in its turn.
pub proof fn lemma_no_refusal(names: Seq<Seq<char>>, from: int, i: int)
    requires
        0 <= from <= i < names.len(),
        first_refusal(names, from).is_ok(),
    ensures
        add_name_outcome(i, names[i]).is_ok(),
    decreases i - from,
{
    if from < i {
        lemma_no_refusal(names, from + 1, i);
    }
}

impl Header {
    /// Replaces the scalar channels of `self` by those of `rhs`. Where one
    /// of them cannot be added, fails as the first such one is refused and
    /// changes nothing.
    pub fn copy_scalars(&mut self, rhs: &Header) -> (res: Result<(), HeaderError>)
        ensures
            res.is_ok() <==> first_refusal(texts(rhs.scalars_name@), 0).is_ok(),
            res matches Err(e) ==> first_refusal(texts(rhs.scalars_name@), 0) == Err::<(), HeaderError>(e),
            res.is_err() ==> *final(self) == *old(self),
            res.is_ok() ==> {
                &&& texts(final(self).scalars_name@) == texts(rhs.scalars_name@)
                &&& final(self).c_header.n_scalars == rhs.scalars_name@.len()
                &&& final(self).c_header.scalar_name@ == table_of(
                    texts(rhs.scalars_name@),
                    rhs.scalars_name@.len() as int,
                )
                &&& final(self).c_header == old(self).c_header.with_scalars(
                    final(self).c_header.n_scalars,
                    final(self).c_header.scalar_name,
                )
                &&& *final(self) == old(self).with_scalars(
                    final(self).c_header,
                    final(self).scalars_name,
                )
            },
    {
        match check_names(&rhs.scalars_name) {
            Ok(()) => {},
            Err(e) => {
                return Err(e);
            },
        }
        self.clear_scalars();
        let ghost names = texts(rhs.scalars_name@);
        let n = rhs.scalars_name.len();
        let mut i: usize = 0;
        while i < n
            invariant
                n == rhs.scalars_name@.len(),
                names == texts(rhs.scalars_name@),
                first_refusal(names, 0).is_ok(),
                0 <= i <= n,
                self.scalars_name@.len() == i,
                forall|k: int| 0 <= k < i ==> (#[trigger] self.scalars_name@[k])@ == names[k],
                self.c_header.n_scalars == i,
                self.c_header.scalar_name@ == table_of(names, i as int),
                self.c_header == old(self).c_header.with_scalars(
                    self.c_header.n_scalars,
                    self.c_header.scalar_name,
                ),
                *self == old(self).with_scalars(self.c_header, self.scalars_name),
            decreases n - i,
        {
            let name = rhs.scalars_name[i].as_str();
            proof {
                assert(names[i as int] == name@);
                lemma_no_refusal(names, 0, i as int);
            }
            let ghost before = self.scalars_name@;
            match self.add_scalar(name) {
                Ok(()) => {},
                Err(e) => {
                    return Err(e);
                },
            }
            proof {
                assert(self.scalars_name@.drop_last() == before);
                assert forall|k: int| 0 <= k <= i implies (#[trigger] self.scalars_name@[k])@
                    == names[k] by {
                    if k < i {
                        assert(self.scalars_name@[k] == before[k]);
                    }
                }
            }
            i = i + 1;
        }
        proof {
            assert(texts(self.scalars_name@) =~= names);
        }
        Ok(())
    }

    /// Replaces the property channels of `self` by those of `rhs`. Where
    /// one of them cannot be added, fails as the first such one is refused
    /// and changes nothing.
    pub fn copy_properties(&mut self, rhs: &Header) -> (res: Result<(), HeaderError>)
        ensures
            res.is_ok() <==> first_refusal(texts(rhs.properties_name@), 0).is_ok(),
            res matches Err(e) ==> first_refusal(texts(rhs.properties_name@), 0) == Err::<(), HeaderError>(e),
            res.is_err() ==> *final(self) == *old(self),
            res.is_ok() ==> {
                &&& texts(final(self).properties_name@) == texts(rhs.properties_name@)
                &&& final(self).c_header.n_properties == rhs.properties_name@.len()
                &&& final(self).c_header.property_name@ == table_of(
                    texts(rhs.properties_name@),
                    rhs.properties_name@.len() as int,
                )
                &&& final(self).c_header == old(self).c_header.with_properties(
                    final(self).c_header.n_properties,
                    final(self).c_header.property_name,
                )
                &&& *final(self) == old(self).with_properties(
                    final(self).c_header,
                    final(self).properties_name,
                )
            },
    {
        match check_names(&rhs.properties_name) {
            Ok(()) => {},
            Err(e) => {
                return Err(e);
            },
        }
        self.clear_properties();
        let ghost names = texts(rhs.properties_name@);
        let n = rhs.properties_name.len();
        let mut i: usize = 0;
        while i < n
            invariant
                n == rhs.properties_name@.len(),
                names == texts(rhs.properties_name@),
                first_refusal(names, 0).is_ok(),
                0 <= i <= n,
                self.properties_name@.len() == i,
                forall|k: int| 0 <= k < i ==> (#[trigger] self.properties_name@[k])@ == names[k],
                self.c_header.n_properties == i,
                self.c_header.property_name@ == table_of(names, i as int),
                self.c_header == old(self).c_header.with_properties(
                    self.c_header.n_properties,
                    self.c_header.property_name,
                ),
                *self == old(self).with_properties(self.c_header, self.properties_name),
            decreases n - i,
        {
            let name = rhs.properties_name[i].as_str();
            proof {
                assert(names[i as int] == name@);
                lemma_no_refusal(names, 0, i as int);
            }
            let ghost before = self.properties_name@;
            match self.add_property(name) {
                Ok(()) => {},
                Err(e) => {
                    return Err(e);
                },
            }
            proof {
                assert(self.properties_name@.drop_last() == before);
                assert forall|k: int| 0 <= k <= i implies (#[trigger] self.properties_name@[k])@
                    == names[k] by {
                    if k < i {
                        assert(self.properties_name@[k] == before[k]);
                    }
                }
            }
            i = i + 1;
        }
        proof {
            assert(texts(self.properties_name@) =~= names);
        }
        Ok(())
    }

    /// Replaces the scalar and the property channels of `self` by those of
    /// `rhs`. Where one of them cannot be added, fails as the first such
    /// one is refused, the scalars first, and changes nothing.
    pub fn copy_scalars_and_properties(&mut self, rhs: &Header) -> (res: Result<(), HeaderError>)
        ensures
            res.is_ok() <==> first_refusal(texts(rhs.scalars_name@), 0).is_ok() && first_refusal(
                texts(rhs.properties_name@),
                0,
            ).is_ok(),
            res matches Err(e) ==> if first_refusal(texts(rhs.scalars_name@), 0).is_err() {
                first_refusal(texts(rhs.scalars_name@), 0) == Err::<(), HeaderError>(e)
            } else {
                first_refusal(texts(rhs.properties_name@), 0) == Err::<(), HeaderError>(e)
            },
            res.is_err() ==> *final(self) == *old(self),
            res.is_ok() ==> {
                &&& texts(final(self).scalars_name@) == texts(rhs.scalars_name@)
                &&& texts(final(self).properties_name@) == texts(rhs.properties_name@)
                &&& final(self).c_header.n_scalars == rhs.scalars_name@.len()
                &&& final(self).c_header.n_properties == rhs.properties_name@.len()
                &&& final(self).c_header.scalar_name@ == table_of(
                    texts(rhs.scalars_name@),
                    rhs.scalars_name@.len() as int,
                )
                &&& final(self).c_header.property_name@ == table_of(
                    texts(rhs.properties_name@),
                    rhs.properties_name@.len() as int,
                )
                &&& final(self).c_header == old(self).c_header.with_scalars(
                    final(self).c_header.n_scalars,
                    final(self).c_header.scalar_name,
                ).with_properties(
                    final(self).c_header.n_properties,
                    final(self).c_header.property_name,
                )
                &&& *final(self) == old(self).with_scalars(
                    final(self).c_header,
                    final(self).scalars_name,
                ).with_properties(final(self).c_header, final(self).properties_name)
            },
    {
        match check_names(&rhs.scalars_name) {
            Ok(()) => {},
            Err(e) => {
                return Err(e);
            },
        }
        match check_names(&rhs.properties_name) {
            Ok(()) => {},
            Err(e) => {
                return Err(e);
            },
        }
        match self.copy_scalars(rhs) {
            Ok(()) => {},
            Err(e) => {
                return Err(e);
            },
        }
        self.copy_properties(rhs)
    }
}

impl Default for Header {
    /// The header of an empty file in world space: no channels and the
    /// identity for an affine.
    fn default() -> (h: Header)
        ensures
            crate::cheader::default_geometry(h.c_header),
            crate::cheader::default_rest(h.c_header),
            h.affine4_to_rasmm@ == identity4(),
            h.affine_to_rasmm@ == identity3(),
            h.translation@ == seq![0u32, 0u32, 0u32],
            h.nb_streamlines == 0,
            h.scalars_name@.len() == 0,
            h.properties_name@.len() == 0,
    {
        let h = Header {
            c_header: CHeader::default(),
            affine4_to_rasmm: [ONE, 0, 0, 0, 0, ONE, 0, 0, 0, 0, ONE, 0, 0, 0, 0, ONE],
            affine_to_rasmm: [ONE, 0, 0, 0, ONE, 0, 0, 0, ONE],
            translation: [0, 0, 0],
            nb_streamlines: 0,
            scalars_name: Vec::new(),
            properties_name: Vec::new(),
        };
        proof {
            assert(h.affine4_to_rasmm@ =~= identity4());
            assert(h.affine_to_rasmm@ =~= identity3());
            assert(h.translation@ =~= seq![0u32, 0u32, 0u32]);
        }
        h
    }
}

} // verus!
