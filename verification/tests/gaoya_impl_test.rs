use whichlicense_detection::{
    strip_spdx_heading, Canonical, DiskData, GaoyaDetection, LicenseEntry, LicenseListActions,
    StripLicense, Verbatim,
};

type Normalizer = StripLicense;

const APACHE_2_0: &str = r#"                              Apache License
                        Version 2.0, January 2004
                     http://www.apache.org/licenses/

TERMS AND CONDITIONS FOR USE, REPRODUCTION, AND DISTRIBUTION

1. Definitions.

   "License" shall mean the terms and conditions for use, reproduction,
   and distribution as defined by Sections 1 through 9 of this document.

   "Licensor" shall mean the copyright owner or entity authorized by
   the copyright owner that is granting the License.

   "Legal Entity" shall mean the union of the acting entity and all
   other entities that control, are controlled by, or are under common
   control with that entity. For the purposes of this definition,
   "control" means (i) the power, direct or indirect, to cause the
   direction or management of such entity, whether by contract or
   otherwise, or (ii) ownership of fifty percent (50%) or more of the
   outstanding shares, or (iii) beneficial ownership of such entity.

   "You" (or "Your") shall mean an individual or Legal Entity
   exercising permissions granted by this License.

   "Source" form shall mean the preferred form for making modifications,
   including but not limited to software source code, documentation
   source, and configuration files.

   "Object" form shall mean any form resulting from mechanical
   transformation or translation of a Source form, including but
   not limited to compiled object code, generated documentation,
   and conversions to other media types.

   "Work" shall mean the work of authorship, whether in Source or
   Object form, made available under the License, as indicated by a
   copyright notice that is included in or attached to the work
   (an example is provided in the Appendix below).

   "Derivative Works" shall mean any work, whether in Source or Object
   form, that is based on (or derived from) the Work and for which the
   editorial revisions, annotations, elaborations, or other modifications
   represent, as a whole, an original work of authorship. For the purposes
   of this License, Derivative Works shall not include works that remain
   separable from, or merely link (or bind by name) to the interfaces of,
   the Work and Derivative Works thereof.

   "Contribution" shall mean any work of authorship, including
   the original version of the Work and any modifications or additions
   to that Work or Derivative Works thereof, that is intentionally
   submitted to Licensor for inclusion in the Work by the copyright owner
   or by an individual or Legal Entity authorized to submit on behalf of
   the copyright owner. For the purposes of this definition, "submitted"
   means any form of electronic, verbal, or written communication sent
   to the Licensor or its representatives, including but not limited to
   communication on electronic mailing lists, source code control systems,
   and issue tracking systems that are managed by, or on behalf of, the
   Licensor for the purpose of discussing and improving the Work, but
   excluding communication that is conspicuously marked or otherwise
   designated in writing by the copyright owner as "Not a Contribution."

   "Contributor" shall mean Licensor and any individual or Legal Entity
   on behalf of whom a Contribution has been received by Licensor and
   subsequently incorporated within the Work.

2. Grant of Copyright License. Subject to the terms and conditions of
   this License, each Contributor hereby grants to You a perpetual,
   worldwide, non-exclusive, no-charge, royalty-free, irrevocable
   copyright license to reproduce, prepare Derivative Works of,
   publicly display, publicly perform, sublicense, and distribute the
   Work and such Derivative Works in Source or Object form.

3. Grant of Patent License. Subject to the terms and conditions of
   this License, each Contributor hereby grants to You a perpetual,
   worldwide, non-exclusive, no-charge, royalty-free, irrevocable
   (except as stated in this section) patent license to make, have made,
   use, offer to sell, sell, import, and otherwise transfer the Work,
   where such license applies only to those patent claims licensable
   by such Contributor that are necessarily infringed by their
   Contribution(s) alone or by combination of their Contribution(s)
   with the Work to which such Contribution(s) was submitted. If You
   institute patent litigation against any entity (including a
   cross-claim or counterclaim in a lawsuit) alleging that the Work
   or a Contribution incorporated within the Work constitutes direct
   or contributory patent infringement, then any patent licenses
   granted to You under this License for that Work shall terminate
   as of the date such litigation is filed.

4. Redistribution. You may reproduce and distribute copies of the
   Work or Derivative Works thereof in any medium, with or without
   modifications, and in Source or Object form, provided that You
   meet the following conditions:

   (a) You must give any other recipients of the Work or
       Derivative Works a copy of this License; and

   (b) You must cause any modified files to carry prominent notices
       stating that You changed the files; and

   (c) You must retain, in the Source form of any Derivative Works
       that You distribute, all copyright, patent, trademark, and
       attribution notices from the Source form of the Work,
       excluding those notices that do not pertain to any part of
       the Derivative Works; and

   (d) If the Work includes a "NOTICE" text file as part of its
       distribution, then any Derivative Works that You distribute must
       include a readable copy of the attribution notices contained
       within such NOTICE file, excluding those notices that do not
       pertain to any part of the Derivative Works, in at least one
       of the following places: within a NOTICE text file distributed
       as part of the Derivative Works; within the Source form or
       documentation, if provided along with the Derivative Works; or,
       within a display generated by the Derivative Works, if and
       wherever such third-party notices normally appear. The contents
       of the NOTICE file are for informational purposes only and
       do not modify the License. You may add Your own attribution
       notices within Derivative Works that You distribute, alongside
       or as an addendum to the NOTICE text from the Work, provided
       that such additional attribution notices cannot be construed
       as modifying the License.

   You may add Your own copyright statement to Your modifications and
   may provide additional or different license terms and conditions
   for use, reproduction, or distribution of Your modifications, or
   for any such Derivative Works as a whole, provided Your use,
   reproduction, and distribution of the Work otherwise complies with
   the conditions stated in this License.

5. Submission of Contributions. Unless You explicitly state otherwise,
   any Contribution intentionally submitted for inclusion in the Work
   by You to the Licensor shall be under the terms and conditions of
   this License, without any additional terms or conditions.
   Notwithstanding the above, nothing herein shall supersede or modify
   the terms of any separate license agreement you may have executed
   with Licensor regarding such Contributions.

6. Trademarks. This License does not grant permission to use the trade
   names, trademarks, service marks, or product names of the Licensor,
   except as required for reasonable and customary use in describing the
   origin of the Work and reproducing the content of the NOTICE file.

7. Disclaimer of Warranty. Unless required by applicable law or
   agreed to in writing, Licensor provides the Work (and each
   Contributor provides its Contributions) on an "AS IS" BASIS,
   WITHOUT WARRANTIES OR CONDITIONS OF ANY KIND, either express or
   implied, including, without limitation, any warranties or conditions
   of TITLE, NON-INFRINGEMENT, MERCHANTABILITY, or FITNESS FOR A
   PARTICULAR PURPOSE. You are solely responsible for determining the
   appropriateness of using or redistributing the Work and assume any
   risks associated with Your exercise of permissions under this License.

8. Limitation of Liability. In no event and under no legal theory,
   whether in tort (including negligence), contract, or otherwise,
   unless required by applicable law (such as deliberate and grossly
   negligent acts) or agreed to in writing, shall any Contributor be
   liable to You for damages, including any direct, indirect, special,
   incidental, or consequential damages of any character arising as a
   result of this License or out of the use or inability to use the
   Work (including but not limited to damages for loss of goodwill,
   work stoppage, computer failure or malfunction, or any and all
   other commercial damages or losses), even if such Contributor
   has been advised of the possibility of such damages.

9. Accepting Warranty or Additional Liability. While redistributing
   the Work or Derivative Works thereof, You may choose to offer,
   and charge a fee for, acceptance of support, warranty, indemnity,
   or other liability obligations and/or rights consistent with this
   License. However, in accepting such obligations, You may act only
   on Your own behalf and on Your sole responsibility, not on behalf
   of any other Contributor, and only if You agree to indemnify,
   defend, and hold each Contributor harmless for any liability
   incurred by, or claims asserted against, such Contributor by reason
   of your accepting any such warranty or additional liability.

END OF TERMS AND CONDITIONS

APPENDIX: How to apply the Apache License to your work.

   To apply the Apache License to your work, attach the following
   boilerplate notice, with the fields enclosed by brackets "[]"
   replaced with your own identifying information. (Don't include
   the brackets!)  The text should be enclosed in the appropriate
   comment syntax for the file format. We also recommend that a
   file or class name and description of purpose be included on the
   same "printed page" as the copyright notice for easier
   identification within third-party archives.

Copyright [yyyy] [name of copyright owner]

Licensed under the Apache License, Version 2.0 (the "License");
you may not use this file except in compliance with the License.
You may obtain a copy of the License at

	http://www.apache.org/licenses/LICENSE-2.0

Unless required by applicable law or agreed to in writing, software
distributed under the License is distributed on an "AS IS" BASIS,
WITHOUT WARRANTIES OR CONDITIONS OF ANY KIND, either express or implied.
See the License for the specific language governing permissions and
limitations under the License.
"#;

const MIT: &str = "Permission is hereby granted, free of charge, to any person obtaining a copy \
of this software and associated documentation files (the \"Software\"), to deal in the Software \
without restriction, including without limitation the rights to use, copy, modify, merge, \
publish, distribute, sublicense, and/or sell copies of the Software, and to permit persons to \
whom the Software is furnished to do so, subject to the following conditions: The above \
copyright notice and this permission notice shall be included in all copies or substantial \
portions of the Software. THE SOFTWARE IS PROVIDED \"AS IS\", WITHOUT WARRANTY OF ANY KIND, \
EXPRESS OR IMPLIED, INCLUDING BUT NOT LIMITED TO THE WARRANTIES OF MERCHANTABILITY, FITNESS FOR \
A PARTICULAR PURPOSE AND NONINFRINGEMENT.";

const ISC: &str = "Permission to use, copy, modify, and/or distribute this software for any \
purpose with or without fee is hereby granted, provided that the above copyright notice and \
this permission notice appear in all copies. THE SOFTWARE IS PROVIDED \"AS IS\" AND THE AUTHOR \
DISCLAIMS ALL WARRANTIES WITH REGARD TO THIS SOFTWARE INCLUDING ALL IMPLIED WARRANTIES OF \
MERCHANTABILITY AND FITNESS.";

fn new_gaoya() -> GaoyaDetection<Normalizer> {
    GaoyaDetection::new(42, 3, 50, 50, StripLicense).unwrap()
}

/// A catalog with the corpus that the tests share.
fn corpus() -> GaoyaDetection<Normalizer> {
    let mut gaoya = new_gaoya();
    for (name, text) in
        [("mit.LICENSE", MIT), ("apache-2.0.LICENSE", APACHE_2_0), ("isc.LICENSE", ISC)]
    {
        gaoya.add_plain(name, &strip_spdx_heading(text)).unwrap();
    }
    gaoya
}

fn signature_of(gaoya: &GaoyaDetection<Normalizer>, name: &str) -> Vec<u32> {
    gaoya.get_license_list().into_iter().find(|(n, _)| n == name).unwrap().1
}

#[test]
fn gaoya_impl_test_it_finds_exact_match() {
    let gaoya = corpus();

    let res = gaoya.match_by_hash(signature_of(&gaoya, "apache-2.0.LICENSE")).unwrap();

    assert_eq!(res[0].name, "apache-2.0.LICENSE");
    assert_eq!(res[0].confidence as f32 / 100.0, 100.0);
}

#[test]
fn it_detects_with_over_90_confidence_with_similar_license() {
    let apache_test_license = "Apache License
    Version 2.0, January 2004
    http://www.apache.org/licenses/
    
    TERMS AND CONDITIONS FOR USE, REPRODUCTION, AND DISTRIBUTION
    
    1. Definitions.
    
    \"License\" shall mean the terms and conditions for use, reproduction,
    and distribution as defined by Sections 1 through 9 of this document.
    
    \"Licensor\" shall mean the copyright owner or entity authorized by
    the copyright owner that is granting the License.
    
    \"Legal Entity\" shall mean the union of the acting entity and all
    other entities that control, are controlled by, or are under common
    control with that entity. For the purposes of this definition,
    \"control\" means (i) the power, direct or indirect, to cause the
    direction or management of such entity, whether by contract or
    otherwise, or (ii) ownership of fifty percent (50%) or more of the
    outstanding shares, or (iii) beneficial ownership of such entity.
    
    \"You\" (or \"Your\") shall mean an individual or Legal Entity
    exercising permissions granted by this License.
    
    \"Source\" form shall mean the preferred form for making modifications,
    including but not limited to software source code, documentation
    source, and configuration files.
    
    \"Object\" form shall mean any form resulting from mechanical
    transformation or translation of a Source form, including but
    not limited to compiled object code, generated documentation,
    and conversions to other media types.
    
    \"Work\" shall mean the work of authorship, whether in Source or
    Object form, made available under the License, as indicated by a
    copyright notice that is included in or attached to the work
    (an example is provided in the Appendix below).
    
    \"Derivative Works\" shall mean any work, whether in Source or Object
    form, that is based on (or derived from) the Work and for which the
    editorial revisions, annotations, elaborations, or other modifications
    represent, as a whole, an original work of authorship. For the purposes
    of this License, Derivative Works shall not include works that remain
    separable from, or merely link (or bind by name) to the interfaces of,
    the Work and Derivative Works thereof.
    
    \"Contribution\" shall mean any work of authorship, including
    the original version of the Work and any modifications or additions
    to that Work or Derivative Works thereof, that is intentionally
    submitted to Licensor for inclusion in the Work by the copyright owner
    or by an individual or Legal Entity authorized to submit on behalf of
    the copyright owner. For the purposes of this definition, \"submitted\"
    means any form of electronic, verbal, or written communication sent
    to the Licensor or its representatives, including but not limited to
    communication on electronic mailing lists, source code control systems,
    and issue tracking systems that are managed by, or on behalf of, the
    Licensor for the purpose of discussing and improving the Work, but
    excluding communication that is conspicuously marked or otherwise
    designated in writing by the copyright owner as \"Not a Contribution.\"
    
    \"Contributor\" shall mean Licensor and any individual or Legal Entity
    on behalf of whom a Contribution has been received by Licensor and
    subsequently incorporated within the Work.
    
    2. Grant of Copyright License. Subject to the terms and conditions of
    this License, each Contributor hereby grants to You a perpetual,
    worldwide, non-exclusive, no-charge, royalty-free, irrevocable
    copyright license to reproduce, prepare Derivative Works of,
    publicly display, publicly perform, sublicense, and distribute the
    Work and such Derivative Works in Source or Object form.
    
    3. Grant of Patent License. Subject to the terms and conditions of
    this License, each Contributor hereby grants to You a perpetual,
    worldwide, non-exclusive, no-charge, royalty-free, irrevocable
    (except as stated in this section) patent license to make, have made,
    use, offer to sell, sell, import, and otherwise transfer the Work,
    where such license applies only to those patent claims licensable
    by such Contributor that are necessarily infringed by their
    Contribution(s) alone or by combination of their Contribution(s)
    with the Work to which such Contribution(s) was submitted. If You
    institute patent litigation against any entity (including a
    cross-claim or counterclaim in a lawsuit) alleging that the Work
    or a Contribution incorporated within the Work constitutes direct
    or contributory patent infringement, then any patent licenses
    granted to You under this License for that Work shall terminate
    as of the date such litigation is filed.
    
    4. Redistribution. You may reproduce and distribute copies of the
    Work or Derivative Works thereof in any medium, with or without
    modifications, and in Source or Object form, provided that You
    meet the following conditions:
    
    (a) You must give any other recipients of the Work or
    Derivative Works a copy of this License; and
    
    (b) You must cause any modified files to carry prominent notices
    stating that You changed the files; and
    
    (c) You must retain, in the Source form of any Derivative Works
    that You distribute, all copyright, patent, trademark, and
    attribution notices from the Source form of the Work,
    excluding those notices that do not pertain to any part of
    the Derivative Works; and
    
    (d) If the Work includes a \"NOTICE\" text file as part of its
    distribution, then any Derivative Works that You distribute must
    include a readable copy of the attribution notices contained
    within such NOTICE file, excluding those notices that do not
    pertain to any part of the Derivative Works, in at least one
    of the following places: within a NOTICE text file distributed
    as part of the Derivative Works; within the Source form or
    documentation, if provided along with the Derivative Works; or,
    within a display generated by the Derivative Works, if and
    wherever such third-party notices normally appear. The contents
    of the NOTICE file are for informational purposes only and
    do not modify the License. You may add Your own attribution
    notices within Derivative Works that You distribute, alongside
    or as an addendum to the NOTICE text from the Work, provided
    that such additional attribution notices cannot be construed
    as modifying the License.
    
    You may add Your own copyright statement to Your modifications and
    may provide additional or different license terms and conditions
    for use, reproduction, or distribution of Your modifications, or
    for any such Derivative Works as a whole, provided Your use,
    reproduction, and distribution of the Work otherwise complies with
    the conditions stated in this License.
    
    5. Submission of Contributions. Unless You explicitly state otherwise,
    any Contribution intentionally submitted for inclusion in the Work
    by You to the Licensor shall be under the terms and conditions of
    this License, without any additional terms or conditions.
    Notwithstanding the above, nothing herein shall supersede or modify
    the terms of any separate license agreement you may have executed
    with Licensor regarding such Contributions.
    
    6. Trademarks. This License does not grant permission to use the trade
    names, trademarks, service marks, or product names of the Licensor,
    except as required for reasonable and customary use in describing the
    origin of the Work and reproducing the content of the NOTICE file.
    
    7. Disclaimer of Warranty. Unless required by applicable law or
    agreed to in writing, Licensor provides the Work (and each
    Contributor provides its Contributions) on an \"AS IS\" BASIS,
    WITHOUT WARRANTIES OR CONDITIONS OF ANY KIND, either express or
    implied, including, without limitation, any warranties or conditions
    of TITLE, NON-INFRINGEMENT, MERCHANTABILITY, or FITNESS FOR A
    PARTICULAR PURPOSE. You are solely responsible for determining the
    appropriateness of using or redistributing the Work and assume any
    risks associated with Your exercise of permissions under this License.
    
    8. Limitation of Liability. In no event and under no legal theory,
    whether in tort (including negligence), contract, or otherwise,
    unless required by applicable law (such as deliberate and grossly
    negligent acts) or agreed to in writing, shall any Contributor be
    liable to You for damages, including any direct, indirect, special,
    incidental, or consequential damages of any character arising as a
    result of this License or out of the use or inability to use the
    Work (including but not limited to damages for loss of goodwill,
    work stoppage, computer failure or malfunction, or any and all
    other commercial damages or losses), even if such Contributor
    has been advised of the possibility of such damages.
    
    9. Accepting Warranty or Additional Liability. While redistributing
    the Work or Derivative Works thereof, You may choose to offer,
    and charge a fee for, acceptance of support, warranty, indemnity,
    or other liability obligations and/or rights consistent with this
    License. However, in accepting such obligations, You may act only
    on Your own behalf and on Your sole responsibility, not on behalf
    of any other Contributor, and only if You agree to indemnify,
    defend, and hold each Contributor harmless for any liability
    incurred by, or claims asserted against, such Contributor by reason
    of your accepting any such warranty or additional liability.
    
    END OF TERMS AND CONDITIONS
    
    APPENDIX: How to apply the Apache License to your work.
    
    To apply the Apache License to your work, attach the following
    boilerplate notice
    
    Copyright (c) 2023 Duart Snel
    
    Licensed under the Apache License, Version 2.0 (the \"License\");
    you may not use this file except in compliance with the License.
    You may obtain a copy of the License at
    
    http://www.apache.org/licenses/LICENSE-2.0
    
    Unless required by applicable law or agreed to in writing, software
    distributed under the License is distributed on an \"AS IS\" BASIS,
    WITHOUT WARRANTIES OR CONDITIONS OF ANY KIND, either express or implied.
    See the License for the specific language governing permissions and
    limitations under the License.";
    let gaoya = corpus();

    let matches = gaoya.match_by_plain_text(apache_test_license).unwrap();

    assert!(matches.len() > 0, "No matches found!! Is the database populated? is apache's license in the database?");
    assert_eq!(matches[0].name, "apache-2.0.LICENSE");
    assert!(matches[0].confidence as f32 / 100.0 > 90.0);
}

#[test]
fn it_fails_on_unknown() {
    let unknown_license =
        "This is not a license. lorem ipsum dolor sit amet, consectetur adipiscing elit.";
    let gaoya = corpus();

    let matches = gaoya.match_by_plain_text(unknown_license).unwrap();
    assert!(matches.len() == 0, "Found a match for an unknown license!");
}

#[test]
fn it_filters_on_min_confidence() {
    let gaoya = corpus();

    let matches = gaoya.match_by_plain_text(APACHE_2_0).unwrap();
    assert!(matches.len() > 0, "No matches found!! Is the database populated? is apache's license in the database?");

    assert!(matches[0].confidence as f32 / 100.0 == 100.0);
    assert_eq!(matches[0].name, "apache-2.0.LICENSE");

    for m in matches.iter() {
        assert!(
            m.confidence as f32 / 100.0 >= 50.0,
            "Confidence was lower than the supplied minimum confidence!"
        );
    }
}

#[test]
fn add_plain_works() {
    let mut gaoya = new_gaoya();
    gaoya.add_plain("test_license", "This is a test license").unwrap();

    let list = gaoya.get_license_list();
    assert!(list.iter().any(|(name, _)| name == "test_license"));
    assert!(signature_of(&gaoya, "test_license").len() > 0);
    assert!(list.len() > 0);
}

#[test]
fn it_hashes_from_inline_string() {
    let mut gaoya = new_gaoya();
    let res = gaoya.hash_from_inline_string("This is a test license").unwrap();
    assert!(gaoya.upsert(String::from("test_license"), res.clone()));

    assert!(res.len() > 0);
    assert!(gaoya
        .match_by_plain_text("This is a test license")
        .unwrap()
        .iter()
        .any(|x| x.name == "test_license"),)
}

#[test]
fn it_loads_from_inline_string() {
    let mut gaoya = new_gaoya();

    let signature = gaoya
        .hash_from_inline_string(&strip_spdx_heading(&"This is a test license"))
        .unwrap();
    gaoya.load_disk_data(DiskData {
        licenses: vec![LicenseEntry { name: String::from("test_license"), hash: signature }],
    });

    let list = gaoya.get_license_list();
    assert!(list.iter().any(|(name, _)| name == "test_license"));
    assert!(signature_of(&gaoya, "test_license").len() > 0);
    assert!(list.len() > 0);
}

#[test]
fn remove_works() {
    let mut gaoya = new_gaoya();
    gaoya.add_plain("test_license", "This is a test license").unwrap();

    gaoya.remove("test_license");

    assert!(gaoya.get_license_list().len() == 0);
}

#[test]
fn the_defaults_are_42_bands_of_3_hashes_half_similar_on_shingles_of_50() {
    let mut gaoya = GaoyaDetection::with_defaults(StripLicense);
    assert_eq!(gaoya.num_hashes(), 126);
    gaoya.add_plain("mit", MIT).unwrap();
    assert_eq!(signature_of(&gaoya, "mit"), new_gaoya().hash_from_inline_string(MIT).unwrap());
    assert_eq!(gaoya.match_by_plain_text(MIT).unwrap()[0].confidence, 10000);
}

#[test]
fn a_new_catalog_needs_bands_and_shingles() {
    assert!(GaoyaDetection::new(42, 0, 50, 50, StripLicense).is_none());
    assert!(GaoyaDetection::new(42, 3, 50, 0, StripLicense).is_none());
    assert!(GaoyaDetection::new(usize::MAX, 2, 50, 50, StripLicense).is_none());
    let empty = GaoyaDetection::new(0, 3, 50, 50, StripLicense).unwrap();
    assert_eq!(empty.num_hashes(), 0);
    assert_eq!(new_gaoya().num_hashes(), 126);
}

#[test]
fn the_identical_text_is_the_top_match_and_an_unrelated_one_finds_nothing() {
    let mut gaoya = new_gaoya();
    gaoya.add_plain("apache-2.0", APACHE_2_0).unwrap();

    let matches = gaoya.match_by_plain_text(APACHE_2_0).unwrap();
    assert_eq!(matches.len(), 1);
    assert_eq!(matches[0].name, "apache-2.0");
    assert_eq!(matches[0].confidence, 10000);

    assert!(gaoya.match_by_plain_text("short and unrelated").unwrap().is_empty());
}

#[test]
fn an_empty_index_answers_with_an_empty_list() {
    let gaoya = new_gaoya();
    assert!(gaoya.match_by_plain_text(APACHE_2_0).unwrap().is_empty());
    assert!(gaoya.match_by_hash(vec![7; 126]).unwrap().is_empty());
    assert!(gaoya.get_license_list().is_empty());
}

#[test]
fn a_signature_of_another_length_matches_nothing() {
    let gaoya = corpus();
    assert!(gaoya.match_by_hash(vec![1, 2, 3]).unwrap().is_empty());
    assert!(gaoya.match_by_hash(Vec::new()).unwrap().is_empty());
}

#[test]
fn adding_a_name_twice_leaves_one_entry_with_the_second_text() {
    let mut gaoya = new_gaoya();
    gaoya.add_plain("twice", MIT).unwrap();
    gaoya.add_plain("twice", ISC).unwrap();

    let list = gaoya.get_license_list();
    assert_eq!(list.len(), 1);
    assert_eq!(list[0].0, "twice");
    assert_eq!(list[0].1, gaoya.hash_from_inline_string(ISC).unwrap());

    let matches = gaoya.match_by_plain_text(ISC).unwrap();
    assert_eq!(matches.len(), 1);
    assert_eq!(matches[0].confidence, 10000);
    // the text that was overwritten is found no more
    assert!(gaoya.match_by_plain_text(MIT).unwrap().iter().all(|m| m.confidence < 10000));
}

#[test]
fn a_removed_name_is_never_returned() {
    let mut gaoya = corpus();
    gaoya.add_plain("mit.LICENSE", ISC).unwrap();
    gaoya.remove("mit.LICENSE");
    gaoya.remove("mit.LICENSE");
    gaoya.remove("never there");

    for text in [MIT, ISC, APACHE_2_0] {
        assert!(gaoya.match_by_plain_text(text).unwrap().iter().all(|m| m.name != "mit.LICENSE"));
    }
    assert_eq!(gaoya.get_license_list().len(), 2);
}

#[test]
fn matches_come_by_descending_similarity() {
    let mut gaoya = GaoyaDetection::new(42, 3, 0, 5, StripLicense).unwrap();
    gaoya.add_plain("exact", "the quick brown fox jumps over the lazy dog").unwrap();
    gaoya.add_plain("close", "the quick brown fox jumps over the lazy cat").unwrap();
    gaoya.add_plain("far", "the quick brown fox sleeps under a busy road").unwrap();

    let matches =
        gaoya.match_by_plain_text("the quick brown fox jumps over the lazy dog").unwrap();
    assert_eq!(matches[0].name, "exact");
    assert_eq!(matches[0].confidence, 10000);
    for pair in matches.windows(2) {
        assert!(pair[0].confidence >= pair[1].confidence);
    }
    // each confidence is the share of agreeing hashes, in hundredths of a percent
    let query = gaoya
        .hash_from_inline_string("the quick brown fox jumps over the lazy dog")
        .unwrap();
    for m in matches.iter() {
        let stored = signature_of(&gaoya, &m.name);
        let agreeing = stored.iter().zip(query.iter()).filter(|(a, b)| a == b).count();
        assert_eq!(m.confidence as usize, agreeing * 10000 / 126);
    }
}

#[test]
fn the_threshold_turns_away_what_is_less_similar() {
    let mut strict = GaoyaDetection::new(42, 3, 100, 5, StripLicense).unwrap();
    strict.add_plain("exact", "the quick brown fox jumps over the lazy dog").unwrap();
    strict.add_plain("close", "the quick brown fox jumps over the lazy cat").unwrap();

    let matches =
        strict.match_by_plain_text("the quick brown fox jumps over the lazy dog").unwrap();
    assert_eq!(matches.len(), 1);
    assert_eq!(matches[0].name, "exact");
}

#[test]
fn the_signature_depends_on_the_text_and_on_nothing_else() {
    let one = new_gaoya();
    let other = new_gaoya();
    let a = one.hash_from_inline_string("This is a test license").unwrap();
    let b = other.hash_from_inline_string("This is a test license").unwrap();
    assert_eq!(a, b);
    assert_eq!(a.len(), 126);
    // a text shorter than a shingle has no shingles
    assert_eq!(a, vec![0; 126]);
    // the normalization is applied before the text is sketched
    let mit = one.hash_from_inline_string(MIT).unwrap();
    assert_eq!(mit, other.hash_from_inline_string(&MIT.replace(" ", "\n\t ")).unwrap());
    assert_ne!(mit, a);
    assert_ne!(mit, one.hash_from_inline_string(ISC).unwrap());
}

#[test]
fn it_saves_to_memory_and_loads_what_it_saved() {
    let mut gaoya = new_gaoya();
    gaoya.add_plain("test_license", "This is a test license").unwrap();
    gaoya.add_plain("other_license", "This is another test license").unwrap();
    let raw = gaoya.save_to_memory().unwrap();
    assert!(!raw.is_empty());

    let mut loaded = new_gaoya();
    loaded.add_plain("kept", "something that was there before").unwrap();
    loaded.load_from_memory(&raw);

    let mut names: Vec<String> = loaded.get_license_list().into_iter().map(|(n, _)| n).collect();
    names.sort();
    assert_eq!(names, vec!["kept", "other_license", "test_license"]);
    assert_eq!(signature_of(&loaded, "test_license"), signature_of(&gaoya, "test_license"));

    // what was loaded is saved as it came
    let mut again = new_gaoya();
    again.load_from_memory(&raw);
    assert_eq!(again.save_to_memory().unwrap(), raw);
    assert_eq!(again.to_disk_data().licenses.len(), 2);
}

#[test]
fn a_store_holds_the_entries_by_ascending_name() {
    let mut gaoya = new_gaoya();
    for name in ["mit", "apache-2.0", "zlib", "Apache", "mit-0", "", "ISC", "isc"] {
        gaoya.add_plain(name, MIT).unwrap();
    }
    let names: Vec<String> = gaoya.to_disk_data().licenses.into_iter().map(|e| e.name).collect();
    assert_eq!(names, vec!["", "Apache", "ISC", "apache-2.0", "isc", "mit", "mit-0", "zlib"]);

    // catalogs with equal entries give equal bytes, however they were filled
    let mut other = new_gaoya();
    for name in ["isc", "ISC", "", "mit-0", "Apache", "zlib", "apache-2.0", "mit"] {
        other.add_plain(name, MIT).unwrap();
    }
    assert_eq!(gaoya.save_to_memory(), other.save_to_memory());
}

#[test]
fn bytes_that_are_no_signature_store_change_nothing() {
    let mut gaoya = new_gaoya();
    gaoya.add_plain("test_license", "This is a test license").unwrap();
    gaoya.load_from_memory(&vec![1, 2, 3]);
    gaoya.load_from_memory(&Vec::new());
    assert_eq!(gaoya.get_license_list().len(), 1);
}

#[test]
fn a_loaded_signature_of_another_length_is_passed_over() {
    let mut gaoya = new_gaoya();
    gaoya.load_disk_data(DiskData {
        licenses: vec![
            LicenseEntry { name: String::from("short"), hash: vec![1, 2, 3] },
            LicenseEntry { name: String::from("fits"), hash: vec![9; 126] },
        ],
    });
    let list = gaoya.get_license_list();
    assert_eq!(list.len(), 1);
    assert_eq!(list[0].0, "fits");
    assert!(!gaoya.upsert(String::from("short"), vec![1, 2, 3]));
}

#[test]
fn the_strategy_decides_what_is_sketched() {
    let stripping = new_gaoya();
    let keeping = GaoyaDetection::new(42, 3, 50, 50, Verbatim).unwrap();
    let spaced = MIT.replace(" ", "  ");
    assert_eq!(
        stripping.hash_from_inline_string(MIT).unwrap(),
        stripping.hash_from_inline_string(&spaced).unwrap()
    );
    assert_ne!(
        keeping.hash_from_inline_string(MIT).unwrap(),
        keeping.hash_from_inline_string(&spaced).unwrap()
    );
    assert_eq!(
        keeping.hash_from_inline_string(&MIT.replace(" ", "")).unwrap(),
        stripping.hash_from_inline_string(MIT).unwrap()
    );
}

#[test]
fn the_strategy_can_be_changed() {
    let mut gaoya = new_gaoya();
    gaoya.add_plain("mit", MIT).unwrap();
    gaoya.set_normalization_fn(StripLicense);
    assert_eq!(gaoya.match_by_plain_text(MIT).unwrap()[0].confidence, 10000);
    assert_eq!(gaoya.get_license_list().len(), 1);
}

#[test]
fn the_default_strategy_takes_out_preamble_and_whitespace() {
    let mut gaoya = GaoyaDetection::with_defaults(Canonical);
    let with_preamble = format!("---\nkey: mit\nname: MIT License\n---\n{}", MIT);
    gaoya.add_plain("mit", &with_preamble).unwrap();
    assert_eq!(signature_of2(&gaoya, "mit"), new_gaoya().hash_from_inline_string(MIT).unwrap());
    let matches = gaoya.match_by_plain_text(&MIT.replace(" ", "\n")).unwrap();
    assert_eq!(matches[0].name, "mit");
    assert_eq!(matches[0].confidence, 10000);
}

fn signature_of2(gaoya: &GaoyaDetection<Canonical>, name: &str) -> Vec<u32> {
    gaoya.get_license_list().into_iter().find(|(n, _)| n == name).unwrap().1
}

#[test]
fn the_signature_store_is_a_list_of_named_records() {
    let mut gaoya = GaoyaDetection::new(1, 2, 50, 5, Verbatim).unwrap();
    assert!(gaoya.upsert("b".to_string(), vec![1, 0x0102_0304]));
    assert!(gaoya.upsert("a".to_string(), vec![7, 8]));
    let raw = gaoya.save_to_memory().unwrap();
    let mut expected: Vec<u8> = Vec::new();
    expected.extend_from_slice(&2u64.to_le_bytes());
    for (name, hashes) in [("a", [7u32, 8]), ("b", [1, 0x0102_0304])] {
        expected.extend_from_slice(&1u64.to_le_bytes());
        expected.extend_from_slice(name.as_bytes());
        expected.extend_from_slice(&2u64.to_le_bytes());
        for hash in hashes {
            expected.extend_from_slice(&hash.to_le_bytes());
        }
    }
    assert_eq!(raw, expected);
    assert_eq!(&raw[raw.len() - 4..], &[4, 3, 2, 1]);
}
