//! The types of `fcmlib` that a job is made of. All show their fields but the two flag words.

use vstd::prelude::*;

verus! {

#[verifier::external_type_specification]
pub struct ExPoint(fcmlib::Point);

#[verifier::external_type_specification]
pub struct ExSegmentLine(fcmlib::SegmentLine);

#[verifier::external_type_specification]
pub struct ExSegmentBezier(fcmlib::SegmentBezier);

#[verifier::external_type_specification]
pub struct ExOutline(fcmlib::Outline);

#[verifier::external_type_specification]
pub struct ExPathShape(fcmlib::PathShape);

#[verifier::external_type_specification]
#[verifier::external_body]
pub struct ExPathTool(fcmlib::PathTool);

#[verifier::external_type_specification]
pub struct ExPath(fcmlib::Path);

#[verifier::external_type_specification]
#[verifier::external_body]
pub struct ExPieceRestrictions(fcmlib::PieceRestrictions);

#[verifier::external_type_specification]
pub struct ExPiece(fcmlib::Piece);

#[verifier::external_type_specification]
pub struct ExPieceTable(fcmlib::PieceTable);

#[verifier::external_type_specification]
pub struct ExFileVariant(fcmlib::FileVariant);

#[verifier::external_type_specification]
pub struct ExGenerator(fcmlib::Generator);

#[verifier::external_type_specification]
pub struct ExFileHeader(fcmlib::FileHeader);

#[verifier::external_type_specification]
pub struct ExFileType(fcmlib::FileType);

#[verifier::external_type_specification]
pub struct ExAlignmentData(fcmlib::AlignmentData);

#[verifier::external_type_specification]
pub struct ExCutData(fcmlib::CutData);

#[verifier::external_type_specification]
pub struct ExFcmFile(fcmlib::FcmFile);

} // verus!
