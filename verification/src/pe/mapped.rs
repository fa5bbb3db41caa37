//! What a mapped image holds, byte by byte.
use crate::bytes::overwritten;
use crate::pe::fixups::{fixups, lemma_image_moved, moved_by, separable};
use crate::pe::headers::{aligned_up, lemma_aligned_up};
use crate::pe::layout::{mapped_over, section_laid, sections_laid};
use crate::pe::types::{ParsedPeModel, PeSectionModel};
use vstd::prelude::*;

verus! {

/// The data of the section covers the byte at `at` of the image.
pub open spec fn fills(section: PeSectionModel, at: int) -> bool {
    section.virtual_address <= at < section.virtual_address + section.raw_data_size
}

/// What lies at `at` before anything is moved: the data of the last section
/// that fills the byte, else the headers, else what was there before.
pub open spec fn comes_from_file(
    byte: u8,
    memory: Seq<u8>,
    file: Seq<u8>,
    sections: Seq<PeSectionModel>,
    headers: int,
    at: int,
) -> bool {
    &&& forall|i: int|
        0 <= i < sections.len() && #[trigger] fills(sections[i], at) && (forall|j: int|
            i < j < sections.len() ==> !#[trigger] fills(sections[j], at)) ==> byte
            == file[sections[i].raw_data_ptr + (at - sections[i].virtual_address)]
    &&& (forall|j: int| 0 <= j < sections.len() ==> !#[trigger] fills(sections[j], at)) ==> byte
        == (if at < headers {
        file[at]
    } else {
        memory[at]
    })
}

/// The section finds its place in memory of the given size, and its data in
/// the file.
pub open spec fn has_place(section: PeSectionModel, alignment: u32, size: nat, file: Seq<u8>) -> bool {
    &&& aligned_up(
        if section.virtual_size > section.raw_data_size {
            section.virtual_size
        } else {
            section.raw_data_size
        },
        alignment,
    ) matches Some(extent) && section.virtual_address + extent <= size
    &&& section.raw_data_size == 0 || section.raw_data_ptr + section.raw_data_size <= file.len()
}

proof fn lemma_sections_laid(
    memory: Seq<u8>,
    headed: Seq<u8>,
    file: Seq<u8>,
    sections: Seq<PeSectionModel>,
    count: int,
    alignment: u32,
    headers: int,
)
    requires
        0 <= count <= sections.len(),
        0 <= headers <= memory.len(),
        headers <= file.len(),
        headed == overwritten(memory, 0, file.subrange(0, headers)),
    ensures
        sections_laid(headed, file, sections, count, alignment) is Some <==> (forall|i: int|
            0 <= i < count ==> has_place(#[trigger] sections[i], alignment, memory.len(), file)),
        sections_laid(headed, file, sections, count, alignment) matches Some(laid) ==> {
            &&& laid.len() == memory.len()
            &&& forall|at: int|
                0 <= at < memory.len() ==> comes_from_file(
                    #[trigger] laid[at],
                    memory,
                    file,
                    sections.take(count),
                    headers,
                    at,
                )
        },
    decreases count,
{
    if count > 0 {
        lemma_sections_laid(memory, headed, file, sections, count - 1, alignment, headers);
        let section = sections[count - 1];
        let front = sections.take(count - 1);
        let all = sections.take(count);
        assert(all[count - 1] == section);
        if let Some(before) = sections_laid(headed, file, sections, count - 1, alignment) {
            assert(section_laid(before, file, section, alignment) is Some <==> has_place(
                section,
                alignment,
                memory.len(),
                file,
            ));
            if let Some(laid) = section_laid(before, file, section, alignment) {
                assert forall|at: int| 0 <= at < memory.len() implies comes_from_file(
                    #[trigger] laid[at],
                    memory,
                    file,
                    all,
                    headers,
                    at,
                ) by {
                    assert(comes_from_file(before[at], memory, file, front, headers, at));
                    assert forall|i: int|
                        0 <= i < all.len() && #[trigger] fills(all[i], at) && (forall|j: int|
                            i < j < all.len() ==> !#[trigger] fills(
                                all[j],
                                at,
                            )) implies laid[at] == file[all[i].raw_data_ptr + (at
                        - all[i].virtual_address)] by {
                        if i < count - 1 {
                            assert(!fills(all[count - 1], at));
                            assert(front[i] == all[i]);
                            assert(fills(front[i], at));
                            assert forall|j: int| i < j < front.len() implies !#[trigger] fills(
                                front[j],
                                at,
                            ) by {
                                assert(front[j] == all[j]);
                                assert(!fills(all[j], at));
                            }
                            assert(laid[at] == before[at]);
                        }
                    }
                    if forall|j: int| 0 <= j < all.len() ==> !#[trigger] fills(all[j], at) {
                        assert(!fills(all[count - 1], at));
                        assert forall|j: int| 0 <= j < front.len() implies !#[trigger] fills(
                            front[j],
                            at,
                        ) by {
                            assert(front[j] == all[j]);
                            assert(!fills(all[j], at));
                        }
                        assert(laid[at] == before[at]);
                    }
                }
            }
        }
    } else {
        assert(sections.take(0).len() == 0);
    }
}

/// An image at the address it prefers holds what the file holds: in each byte
/// the data of the last section that fills it, else the headers, else what the
/// memory held before. It can be mapped exactly where its headers and all its
/// sections find their places in the memory and in the file.
pub proof fn lemma_mapped_at_home(memory: Seq<u8>, file: Seq<u8>, image: ParsedPeModel)
    ensures
        mapped_over(memory, file, image, image.image_base) is Some <==> {
            &&& image.size_of_headers <= memory.len()
            &&& image.size_of_headers <= file.len()
            &&& forall|i: int|
                0 <= i < image.sections.len() ==> has_place(
                    #[trigger] image.sections[i],
                    image.section_alignment,
                    memory.len(),
                    file,
                )
        },
        mapped_over(memory, file, image, image.image_base) matches Some(home) ==> {
            &&& home.preferred_base == image.image_base
            &&& home.selected_base == image.image_base
            &&& home.memory.len() == memory.len()
            &&& forall|at: int|
                0 <= at < memory.len() ==> comes_from_file(
                    #[trigger] home.memory[at],
                    memory,
                    file,
                    image.sections,
                    image.size_of_headers as int,
                    at,
                )
        },
{
    let headers = image.size_of_headers as int;
    if headers <= memory.len() && headers <= file.len() {
        let headed = overwritten(memory, 0, file.subrange(0, headers));
        lemma_sections_laid(
            memory,
            headed,
            file,
            image.sections,
            image.sections.len() as int,
            image.section_alignment,
            headers,
        );
        assert(image.sections.take(image.sections.len() as int) =~= image.sections);
    }
}

/// An image whose relocations lie inside its memory and apart from each other
/// can be mapped at any address where it can be mapped at the one it prefers.
/// There each word that a relocation names is larger by the distance from the
/// preferred address to the chosen one, what does not fit into it being
/// dropped, and every other byte is the same.
pub proof fn lemma_mapped_elsewhere(
    memory: Seq<u8>,
    file: Seq<u8>,
    image: ParsedPeModel,
    base: u64,
)
    requires
        separable(fixups(image.relocations), memory.len()),
    ensures
        mapped_over(memory, file, image, base) is Some <==> mapped_over(
            memory,
            file,
            image,
            image.image_base,
        ) is Some,
        (
            mapped_over(memory, file, image, image.image_base),
            mapped_over(memory, file, image, base),
        ) matches (Some(home), Some(away)) ==> {
            &&& away.preferred_base == image.image_base
            &&& away.selected_base == base
            &&& away.sections == home.sections
            &&& moved_by(
                home.memory,
                away.memory,
                fixups(image.relocations),
                fixups(image.relocations).len() as int,
                base - image.image_base,
            )
        },
{
    let headers = image.size_of_headers as int;
    if headers <= memory.len() && headers <= file.len() {
        let headed = overwritten(memory, 0, file.subrange(0, headers));
        lemma_sections_laid(
            memory,
            headed,
            file,
            image.sections,
            image.sections.len() as int,
            image.section_alignment,
            headers,
        );
        if let Some(laid) = sections_laid(
            headed,
            file,
            image.sections,
            image.sections.len() as int,
            image.section_alignment,
        ) {
            lemma_image_moved(laid, image.relocations, image.image_base, base);
        }
    }
}

/// Of each section that was mapped, its name, address and size of data are
/// told; its size in memory is the smallest multiple of the alignment that
/// holds both its data and the size it asks for; and its bytes may be run,
/// read or written as the bits 29, 30 and 31 of its characteristics say.
pub proof fn lemma_mappings_told(
    memory: Seq<u8>,
    file: Seq<u8>,
    image: ParsedPeModel,
    base: u64,
    index: int,
)
    requires
        mapped_over(memory, file, image, base) is Some,
        image.section_alignment > 0,
        0 <= index < image.sections.len(),
    ensures
        ({
            let mapped = mapped_over(memory, file, image, base)->0;
            let section = image.sections[index];
            let told = mapped.sections[index];
            let alignment = image.section_alignment as int;
            &&& mapped.sections.len() == image.sections.len()
            &&& told.name == section.name
            &&& told.virtual_address == section.virtual_address
            &&& told.raw_data_size == section.raw_data_size
            &&& told.mapped_size as int % alignment == 0
            &&& told.mapped_size >= section.virtual_size
            &&& told.mapped_size >= section.raw_data_size
            &&& told.mapped_size - alignment < section.virtual_size || told.mapped_size - alignment
                < section.raw_data_size
            &&& section.virtual_address + told.mapped_size <= memory.len()
            &&& told.protection.execute == (section.characteristics / 0x2000_0000 % 2 == 1)
            &&& told.protection.read == (section.characteristics / 0x4000_0000 % 2 == 1)
            &&& told.protection.write == (section.characteristics / 0x8000_0000 == 1)
        }),
{
    let headers = image.size_of_headers as int;
    let headed = overwritten(memory, 0, file.subrange(0, headers));
    lemma_sections_laid(
        memory,
        headed,
        file,
        image.sections,
        image.sections.len() as int,
        image.section_alignment,
        headers,
    );
    let section = image.sections[index];
    assert(has_place(section, image.section_alignment, memory.len(), file));
    lemma_aligned_up(
        if section.virtual_size > section.raw_data_size {
            section.virtual_size
        } else {
            section.raw_data_size
        },
        image.section_alignment,
    );
    let bits = section.characteristics;
    assert((bits & 0x2000_0000u32 != 0) == (bits / 0x2000_0000 % 2 == 1)) by (bit_vector);
    assert((bits & 0x4000_0000u32 != 0) == (bits / 0x4000_0000 % 2 == 1)) by (bit_vector);
    assert((bits & 0x8000_0000u32 != 0) == (bits / 0x8000_0000 == 1)) by (bit_vector);
}

} // verus!
